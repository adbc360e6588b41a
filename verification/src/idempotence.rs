//! Running twice: what a first run resolved, a second run finds resolved.

use crate::configuration::LinkMapView;
use crate::filter::{linked_paths, remaining, remaining_of};
use crate::filter_source_nodes::retained;
use crate::filter_target_nodes::links_of;
use crate::match_link_maps::route;
use crate::node::NodeView;
use crate::reconcile::{may_leave, may_leave_all, work_of};
use vstd::prelude::*;

verus! {

/// Whether the link that the rules ask for in place of `node`, and in place
/// of every entry that a reconciliation descends to below it, refers to a
/// path in `linked`.
pub open spec fn routed_link_present(
    node: NodeView,
    link_maps: Seq<LinkMapView>,
    linked: Set<Seq<char>>,
) -> bool
    decreases node,
{
    match route(node, link_maps) {
        Some(candidate) => linked.contains(candidate->Link_1),
        None => match node {
            NodeView::Branch(_, children) => routed_links_present(children, link_maps, linked),
            _ => true,
        },
    }
}

/// [`routed_link_present`] of every entry of a forest.
pub open spec fn routed_links_present(
    nodes: Seq<NodeView>,
    link_maps: Seq<LinkMapView>,
    linked: Set<Seq<char>>,
) -> bool
    decreases nodes,
{
    if nodes.len() == 0 {
        true
    } else {
        &&& routed_links_present(nodes.drop_last(), link_maps, linked)
        &&& routed_link_present(nodes.last(), link_maps, linked)
    }
}

/// A forest of one entry leaves what the entry leaves.
proof fn lemma_single(
    node: NodeView,
    link_maps: Seq<LinkMapView>,
    may: spec_fn(NodeView, bool) -> bool,
    left: Seq<NodeView>,
)
    ensures
        may_leave_all(seq![node], link_maps, may, left) == (left.len() <= 1 && may_leave(
            node,
            link_maps,
            may,
            left,
        )),
{
    reveal_with_fuel(may_leave_all, 2);
    let forest = seq![node];
    assert(forest.last() == node);
    assert(forest.drop_last() =~= Seq::empty());
    if left.len() == 0 {
        assert(left =~= Seq::empty());
    } else if left.len() == 1 {
        assert(left =~= seq![left.last()]);
        assert(left.drop_last() =~= Seq::empty());
    } else {
        assert(left.drop_last().len() > 0);
    }
}

/// A forest of one entry holds the routed links that the entry holds.
proof fn lemma_single_present(
    node: NodeView,
    link_maps: Seq<LinkMapView>,
    linked: Set<Seq<char>>,
)
    ensures
        routed_links_present(seq![node], link_maps, linked) == routed_link_present(
            node,
            link_maps,
            linked,
        ),
{
    reveal_with_fuel(routed_links_present, 2);
    let forest = seq![node];
    assert(forest.last() == node);
    assert(forest.drop_last() =~= Seq::empty());
}

/// With more paths linked, no more is left: where nothing remains of an
/// entry, nothing remains of it under a larger set of linked paths.
pub proof fn lemma_remaining_of_stays_empty(
    node: NodeView,
    first: Set<Seq<char>>,
    second: Set<Seq<char>>,
)
    requires
        first.subset_of(second),
        remaining_of(node, first).len() == 0,
    ensures
        remaining_of(node, second).len() == 0,
    decreases node,
{
    if !second.contains(node.identity_path()) {
        match node {
            NodeView::Branch(_, children) => {
                lemma_remaining_stays_empty(children, first, second);
            },
            _ => {},
        }
    }
}

/// With more paths linked, no more is left: where nothing remains of a
/// forest, nothing remains of it under a larger set of linked paths.
pub proof fn lemma_remaining_stays_empty(
    nodes: Seq<NodeView>,
    first: Set<Seq<char>>,
    second: Set<Seq<char>>,
)
    requires
        first.subset_of(second),
        remaining(nodes, first).len() == 0,
    ensures
        remaining(nodes, second).len() == 0,
    decreases nodes,
{
    if nodes.len() > 0 {
        lemma_remaining_stays_empty(nodes.drop_last(), first, second);
        lemma_remaining_of_stays_empty(nodes.last(), first, second);
    }
}

/// The law of [`lemma_second_run_leaves_nothing`] for one entry.
pub proof fn lemma_second_run_leaves_nothing_of(
    node: NodeView,
    link_maps: Seq<LinkMapView>,
    first: Set<Seq<char>>,
    second: Set<Seq<char>>,
    may_first: spec_fn(NodeView, bool) -> bool,
    may_second: spec_fn(NodeView, bool) -> bool,
    left: Seq<NodeView>,
)
    requires
        first.subset_of(second),
        may_leave_all(remaining_of(node, first), link_maps, may_first, Seq::empty()),
        routed_links_present(remaining_of(node, first), link_maps, second),
        may_leave_all(remaining_of(node, second), link_maps, may_second, left),
    ensures
        left.len() == 0,
    decreases node,
{
    if !second.contains(node.identity_path()) {
        let before = remaining_of(node, first);
        let after = remaining_of(node, second);
        if before.len() == 0 {
            lemma_remaining_of_stays_empty(node, first, second);
        } else {
            let kept = before[0];
            assert(before =~= seq![kept]);
            lemma_single(kept, link_maps, may_first, Seq::empty());
            lemma_single_present(kept, link_maps, second);
            assert(route(kept, link_maps) == route(node, link_maps));
            assert(route(node, link_maps) is None);
            if after.len() > 0 {
                let again = after[0];
                assert(after =~= seq![again]);
                lemma_single(again, link_maps, may_second, left);
                assert(route(again, link_maps) == route(node, link_maps));
                match node {
                    NodeView::Branch(path, children) => {
                        if children.len() > 0 {
                            let sub = if left.len() == 0 {
                                Seq::empty()
                            } else {
                                left[0]->Branch_1
                            };
                            lemma_second_run_leaves_nothing(
                                children,
                                link_maps,
                                first,
                                second,
                                may_first,
                                may_second,
                                sub,
                            );
                        }
                    },
                    _ => {},
                }
            }
        }
    }
}

/// A second run finds nothing to do where the first run left nothing.
///
/// Let a first run reconcile what remains of `sources` while the targets
/// link to the paths `first`, and let it leave nothing pending. Let the
/// targets of a second run link to the paths `second`: those of the first
/// run and, besides, the referents of the links that the first run had to
/// create. Then whatever the attempts of the second run do, it leaves
/// nothing pending either.
pub proof fn lemma_second_run_leaves_nothing(
    sources: Seq<NodeView>,
    link_maps: Seq<LinkMapView>,
    first: Set<Seq<char>>,
    second: Set<Seq<char>>,
    may_first: spec_fn(NodeView, bool) -> bool,
    may_second: spec_fn(NodeView, bool) -> bool,
    left: Seq<NodeView>,
)
    requires
        first.subset_of(second),
        may_leave_all(remaining(sources, first), link_maps, may_first, Seq::empty()),
        routed_links_present(remaining(sources, first), link_maps, second),
        may_leave_all(remaining(sources, second), link_maps, may_second, left),
    ensures
        left.len() == 0,
    decreases sources,
{
    if sources.len() > 0 {
        let front = sources.drop_last();
        let last = sources.last();
        let before = remaining_of(last, first);
        let after = remaining_of(last, second);
        if before.len() > 0 {
            assert(before =~= seq![before[0]]);
            assert((remaining(front, first) + before).drop_last() =~= remaining(front, first));
            lemma_single(before[0], link_maps, may_first, Seq::empty());
            lemma_single_present(before[0], link_maps, second);
        } else {
            assert(remaining(front, first) + before =~= remaining(front, first));
        }
        assert(may_leave_all(before, link_maps, may_first, Seq::empty()));
        assert(routed_links_present(before, link_maps, second));
        assert(may_leave_all(remaining(front, first), link_maps, may_first, Seq::empty()));
        assert(routed_links_present(remaining(front, first), link_maps, second));
        if after.len() > 0 {
            assert(after =~= seq![after[0]]);
            let all = remaining(front, second) + after;
            assert(all.drop_last() =~= remaining(front, second));
            assert(all.last() == after[0]);
            if left.len() > 0 && may_leave(after[0], link_maps, may_second, seq![left.last()])
                && may_leave_all(all.drop_last(), link_maps, may_second, left.drop_last()) {
                lemma_single(after[0], link_maps, may_second, seq![left.last()]);
                lemma_second_run_leaves_nothing_of(
                    last,
                    link_maps,
                    first,
                    second,
                    may_first,
                    may_second,
                    seq![left.last()],
                );
            } else {
                lemma_second_run_leaves_nothing(
                    front,
                    link_maps,
                    first,
                    second,
                    may_first,
                    may_second,
                    left,
                );
            }
        } else {
            assert(remaining(front, second) + after =~= remaining(front, second));
            lemma_second_run_leaves_nothing(
                front,
                link_maps,
                first,
                second,
                may_first,
                may_second,
                left,
            );
        }
    }
}

/// Two runs in a row: where the first run leaves nothing pending and the
/// second run finds, among the targets, the links of the first run's targets
/// and those that the first run had to create, the second run leaves nothing
/// pending, however its attempts end.
pub proof fn lemma_run_twice_leaves_nothing(
    sources: Seq<NodeView>,
    excludes: Seq<Seq<char>>,
    link_maps: Seq<LinkMapView>,
    first_targets: Seq<NodeView>,
    second_targets: Seq<NodeView>,
    may_first: spec_fn(NodeView, bool) -> bool,
    may_second: spec_fn(NodeView, bool) -> bool,
    left: Seq<NodeView>,
)
    requires
        linked_paths(links_of(first_targets)).subset_of(linked_paths(links_of(second_targets))),
        may_leave_all(
            work_of(sources, first_targets, excludes),
            link_maps,
            may_first,
            Seq::empty(),
        ),
        routed_links_present(
            work_of(sources, first_targets, excludes),
            link_maps,
            linked_paths(links_of(second_targets)),
        ),
        may_leave_all(work_of(sources, second_targets, excludes), link_maps, may_second, left),
    ensures
        left.len() == 0,
{
    lemma_second_run_leaves_nothing(
        retained(sources, excludes),
        link_maps,
        linked_paths(links_of(first_targets)),
        linked_paths(links_of(second_targets)),
        may_first,
        may_second,
        left,
    );
}

} // verus!
