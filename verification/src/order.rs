//! The canonical order of entries: by kind first, plain files before links
//! before directories, then by the fields of the kind. Paths are ordered as
//! their UTF-8 bytes are, which is the order of their characters.

use crate::node::{lemma_branch_view, lemma_child_decreases, views, Node, NodeView};
use vstd::prelude::*;
use vstd::utf8::encode_utf8;

verus! {

/// Compares two byte strings from position `from` on: negative where the
/// first comes first, zero where they agree to the end, positive otherwise.
/// A proper prefix comes before what it is a prefix of.
pub open spec fn compare_bytes_from(a: Seq<u8>, b: Seq<u8>, from: int) -> int
    decreases a.len() - from,
{
    if from < 0 {
        0
    } else if from >= a.len() {
        if from >= b.len() {
            0
        } else {
            -1
        }
    } else if from >= b.len() {
        1
    } else if a[from] < b[from] {
        -1
    } else if a[from] > b[from] {
        1
    } else {
        compare_bytes_from(a, b, from + 1)
    }
}

/// Compares two texts by their UTF-8 bytes.
pub open spec fn compare_texts(a: Seq<char>, b: Seq<char>) -> int {
    compare_bytes_from(encode_utf8(a), encode_utf8(b), 0)
}

/// The first comparison decides unless it finds no difference.
pub open spec fn first_difference(first: int, second: int) -> int {
    if first != 0 {
        first
    } else {
        second
    }
}

/// The rank of an entry's kind.
pub open spec fn rank(node: NodeView) -> int {
    match node {
        NodeView::Leaf(_) => 0,
        NodeView::Link(_, _) => 1,
        NodeView::Branch(_, _) => 2,
    }
}

/// Compares two entries: by kind, then by path, then, for links, by
/// referent and, for directories, by their entries in order.
pub open spec fn compare(a: NodeView, b: NodeView) -> int
    decreases a, 0int,
{
    match (a, b) {
        (NodeView::Leaf(p), NodeView::Leaf(q)) => compare_texts(p, q),
        (NodeView::Link(p, s), NodeView::Link(q, t)) => first_difference(
            compare_texts(p, q),
            compare_texts(s, t),
        ),
        (NodeView::Branch(p, c), NodeView::Branch(q, d)) => first_difference(
            compare_texts(p, q),
            compare_all_from(c, d, 0),
        ),
        _ => if rank(a) < rank(b) {
            -1
        } else {
            1
        },
    }
}

/// Compares two sequences of entries from position `from` on, entry by
/// entry; a proper prefix comes first.
pub open spec fn compare_all_from(a: Seq<NodeView>, b: Seq<NodeView>, from: int) -> int
    decreases a, a.len() - from,
{
    if from < 0 {
        0
    } else if from >= a.len() {
        if from >= b.len() {
            0
        } else {
            -1
        }
    } else if from >= b.len() {
        1
    } else {
        first_difference(compare(a[from], b[from]), compare_all_from(a, b, from + 1))
    }
}

/// Whether `a` may stand before `b` in canonical order.
pub open spec fn in_order(a: NodeView, b: NodeView) -> bool {
    compare(a, b) <= 0
}

/// Whether a sequence of entries is in canonical order.
pub open spec fn is_sorted(nodes: Seq<NodeView>) -> bool {
    forall|i: int, j: int| 0 <= i < j < nodes.len() ==> in_order(nodes[i], nodes[j])
}

/// Swapping the two byte strings flips the sign of their comparison.
pub proof fn lemma_bytes_antisymmetric(a: Seq<u8>, b: Seq<u8>, from: int)
    ensures
        compare_bytes_from(b, a, from) == -compare_bytes_from(a, b, from),
    decreases a.len() - from,
{
    if 0 <= from < a.len() && from < b.len() && a[from] == b[from] {
        lemma_bytes_antisymmetric(a, b, from + 1);
    }
}

/// The comparison of byte strings is transitive, and strings that compare as
/// equal compare alike with every third.
pub proof fn lemma_bytes_transitive(a: Seq<u8>, b: Seq<u8>, c: Seq<u8>, from: int)
    ensures
        compare_bytes_from(a, b, from) == 0 ==> compare_bytes_from(a, c, from)
            == compare_bytes_from(b, c, from),
        compare_bytes_from(b, c, from) == 0 ==> compare_bytes_from(a, c, from)
            == compare_bytes_from(a, b, from),
        compare_bytes_from(a, b, from) < 0 && compare_bytes_from(b, c, from) < 0
            ==> compare_bytes_from(a, c, from) < 0,
    decreases a.len() - from,
{
    if 0 <= from < a.len() && from < b.len() && from < c.len() && a[from] == b[from] && b[from]
        == c[from] {
        lemma_bytes_transitive(a, b, c, from + 1);
    }
}

/// Swapping two entries flips the sign of their comparison.
pub proof fn lemma_compare_antisymmetric(a: NodeView, b: NodeView)
    ensures
        compare(b, a) == -compare(a, b),
    decreases a, 0int,
{
    match (a, b) {
        (NodeView::Leaf(p), NodeView::Leaf(q)) => {
            lemma_bytes_antisymmetric(encode_utf8(p), encode_utf8(q), 0);
        },
        (NodeView::Link(p, s), NodeView::Link(q, t)) => {
            lemma_bytes_antisymmetric(encode_utf8(p), encode_utf8(q), 0);
            lemma_bytes_antisymmetric(encode_utf8(s), encode_utf8(t), 0);
        },
        (NodeView::Branch(p, c), NodeView::Branch(q, d)) => {
            lemma_bytes_antisymmetric(encode_utf8(p), encode_utf8(q), 0);
            lemma_compare_all_antisymmetric(c, d, 0);
        },
        _ => {},
    }
}

/// Swapping two sequences of entries flips the sign of their comparison.
pub proof fn lemma_compare_all_antisymmetric(a: Seq<NodeView>, b: Seq<NodeView>, from: int)
    ensures
        compare_all_from(b, a, from) == -compare_all_from(a, b, from),
    decreases a, a.len() - from,
{
    if 0 <= from < a.len() && from < b.len() {
        lemma_compare_antisymmetric(a[from], b[from]);
        lemma_compare_all_antisymmetric(a, b, from + 1);
    }
}

/// The comparison of entries is transitive, and entries that compare as
/// equal compare alike with every third.
pub proof fn lemma_compare_transitive(a: NodeView, b: NodeView, c: NodeView)
    ensures
        compare(a, b) == 0 ==> compare(a, c) == compare(b, c),
        compare(b, c) == 0 ==> compare(a, c) == compare(a, b),
        compare(a, b) < 0 && compare(b, c) < 0 ==> compare(a, c) < 0,
    decreases a, 0int,
{
    match (a, b, c) {
        (NodeView::Leaf(p), NodeView::Leaf(q), NodeView::Leaf(r)) => {
            lemma_bytes_transitive(encode_utf8(p), encode_utf8(q), encode_utf8(r), 0);
        },
        (NodeView::Link(p, s), NodeView::Link(q, t), NodeView::Link(r, u)) => {
            lemma_bytes_transitive(encode_utf8(p), encode_utf8(q), encode_utf8(r), 0);
            lemma_bytes_transitive(encode_utf8(s), encode_utf8(t), encode_utf8(u), 0);
        },
        (NodeView::Branch(p, x), NodeView::Branch(q, y), NodeView::Branch(r, z)) => {
            lemma_bytes_transitive(encode_utf8(p), encode_utf8(q), encode_utf8(r), 0);
            lemma_compare_all_transitive(x, y, z, 0);
        },
        _ => {},
    }
}

/// The comparison of sequences of entries is transitive, and sequences that
/// compare as equal compare alike with every third.
pub proof fn lemma_compare_all_transitive(
    a: Seq<NodeView>,
    b: Seq<NodeView>,
    c: Seq<NodeView>,
    from: int,
)
    ensures
        compare_all_from(a, b, from) == 0 ==> compare_all_from(a, c, from) == compare_all_from(
            b,
            c,
            from,
        ),
        compare_all_from(b, c, from) == 0 ==> compare_all_from(a, c, from) == compare_all_from(
            a,
            b,
            from,
        ),
        compare_all_from(a, b, from) < 0 && compare_all_from(b, c, from) < 0 ==> compare_all_from(
            a,
            c,
            from,
        ) < 0,
    decreases a, a.len() - from,
{
    if 0 <= from < a.len() && from < b.len() && from < c.len() {
        lemma_compare_transitive(a[from], b[from], c[from]);
        lemma_compare_all_transitive(a, b, c, from + 1);
    }
}

/// Byte strings that compare as equal from `from` on agree from there on.
pub proof fn lemma_bytes_equal(a: Seq<u8>, b: Seq<u8>, from: int)
    requires
        0 <= from,
        compare_bytes_from(a, b, from) == 0,
    ensures
        a.len() == b.len() || (from >= a.len() && from >= b.len()),
        forall|i: int| from <= i < a.len() ==> a[i] == b[i],
    decreases a.len() - from,
{
    if from < a.len() && from < b.len() {
        lemma_bytes_equal(a, b, from + 1);
    }
}

/// Texts that compare as equal are the same text.
pub proof fn lemma_texts_equal(a: Seq<char>, b: Seq<char>)
    requires
        compare_texts(a, b) == 0,
    ensures
        a == b,
{
    lemma_bytes_equal(encode_utf8(a), encode_utf8(b), 0);
    assert(encode_utf8(a) =~= encode_utf8(b));
    vstd::utf8::encode_utf8_decode_utf8(a);
    vstd::utf8::encode_utf8_decode_utf8(b);
}

/// Entries that compare as equal are the same entry: the order tells any
/// two different entries apart.
pub proof fn lemma_compare_equal(a: NodeView, b: NodeView)
    requires
        compare(a, b) == 0,
    ensures
        a == b,
    decreases a, 0int,
{
    match (a, b) {
        (NodeView::Leaf(p), NodeView::Leaf(q)) => {
            lemma_texts_equal(p, q);
        },
        (NodeView::Link(p, s), NodeView::Link(q, t)) => {
            lemma_texts_equal(p, q);
            lemma_texts_equal(s, t);
        },
        (NodeView::Branch(p, c), NodeView::Branch(q, d)) => {
            lemma_texts_equal(p, q);
            lemma_compare_all_equal(c, d, 0);
            assert(c =~= d);
        },
        _ => {},
    }
}

/// Sequences of entries that compare as equal from `from` on agree from
/// there on.
pub proof fn lemma_compare_all_equal(a: Seq<NodeView>, b: Seq<NodeView>, from: int)
    requires
        0 <= from,
        compare_all_from(a, b, from) == 0,
    ensures
        a.len() == b.len() || (from >= a.len() && from >= b.len()),
        forall|i: int| from <= i < a.len() ==> a[i] == b[i],
    decreases a, a.len() - from,
{
    if from < a.len() && from < b.len() {
        lemma_compare_equal(a[from], b[from]);
        lemma_compare_all_equal(a, b, from + 1);
    }
}

/// Entries in order stay in order through a third: the order is transitive.
pub proof fn lemma_in_order_transitive(a: NodeView, b: NodeView, c: NodeView)
    requires
        in_order(a, b),
        in_order(b, c),
    ensures
        in_order(a, c),
{
    lemma_compare_transitive(a, b, c);
}

/// Of two entries one may always stand before the other: the order is total.
pub proof fn lemma_in_order_total(a: NodeView, b: NodeView)
    ensures
        in_order(a, b) || in_order(b, a),
{
    lemma_compare_antisymmetric(a, b);
}

/// Compares two paths: -1, 0 or 1 as [`compare_texts`] is negative, zero or
/// positive.
pub fn compare_paths(a: &str, b: &str) -> (order: i8)
    ensures
        -1 <= order <= 1,
        (order < 0) == (compare_texts(a@, b@) < 0),
        (order == 0) == (compare_texts(a@, b@) == 0),
{
    let x = a.as_bytes();
    let y = b.as_bytes();
    let mut i: usize = 0;
    while i < x.len() && i < y.len()
        invariant
            i <= x.len(),
            i <= y.len(),
            x@ == encode_utf8(a@),
            y@ == encode_utf8(b@),
            compare_bytes_from(x@, y@, 0) == compare_bytes_from(x@, y@, i as int),
        decreases x.len() - i,
    {
        if x[i] < y[i] {
            return -1;
        }
        if x[i] > y[i] {
            return 1;
        }
        i += 1;
    }
    if i < y.len() {
        -1
    } else if i < x.len() {
        1
    } else {
        0
    }
}

/// Compares two entries: -1, 0 or 1 as [`compare`] is negative, zero or
/// positive.
pub fn compare_nodes(a: &Node, b: &Node) -> (order: i8)
    ensures
        -1 <= order <= 1,
        (order < 0) == (compare(a@, b@) < 0),
        (order == 0) == (compare(a@, b@) == 0),
    decreases *a,
{
    match (a, b) {
        (Node::Leaf(p), Node::Leaf(q)) => compare_paths(p.as_str(), q.as_str()),
        (Node::Link(p, s), Node::Link(q, t)) => {
            let by_path = compare_paths(p.as_str(), q.as_str());
            if by_path != 0 {
                by_path
            } else {
                compare_paths(s.as_str(), t.as_str())
            }
        },
        (Node::Branch(p, c), Node::Branch(q, d)) => {
            proof {
                lemma_branch_view(*p, *c);
                lemma_branch_view(*q, *d);
            }
            let by_path = compare_paths(p.as_str(), q.as_str());
            if by_path != 0 {
                return by_path;
            }
            let ghost x = views(c@);
            let ghost y = views(d@);
            let mut i: usize = 0;
            while i < c.len() && i < d.len()
                invariant
                    *a == Node::Branch(*p, *c),
                    i <= c.len(),
                    i <= d.len(),
                    x == views(c@),
                    y == views(d@),
                    a@ == NodeView::Branch(p@, x),
                    b@ == NodeView::Branch(q@, y),
                    compare_texts(p@, q@) == 0,
                    compare_all_from(x, y, 0) == compare_all_from(x, y, i as int),
                decreases c.len() - i,
            {
                proof {
                    lemma_child_decreases(*a, i as int);
                }
                let by_entry = compare_nodes(&c[i], &d[i]);
                assert(x[i as int] == c@[i as int]@ && y[i as int] == d@[i as int]@);
                if by_entry != 0 {
                    return by_entry;
                }
                i += 1;
            }
            if i < d.len() {
                -1
            } else if i < c.len() {
                1
            } else {
                0
            }
        },
        (Node::Leaf(_), _) => -1,
        (Node::Link(_, _), Node::Leaf(_)) => 1,
        (Node::Link(_, _), _) => -1,
        (Node::Branch(_, _), _) => 1,
    }
}

/// Where `node` goes into the sorted sequence `sorted`, looking from `from`
/// on: before the first entry that compares higher, after all others.
pub open spec fn insert_position(sorted: Seq<NodeView>, node: NodeView, from: int) -> int
    decreases sorted.len() - from,
{
    if 0 <= from < sorted.len() && compare(sorted[from], node) <= 0 {
        insert_position(sorted, node, from + 1)
    } else {
        from
    }
}

/// The sorted sequence `sorted` with `node` put in its place.
pub open spec fn inserted(sorted: Seq<NodeView>, node: NodeView) -> Seq<NodeView> {
    sorted.insert(insert_position(sorted, node, 0), node)
}

/// The entries of `nodes` in canonical order: each entry is put in its place
/// among those that follow it.
pub open spec fn sorted_seq(nodes: Seq<NodeView>) -> Seq<NodeView>
    decreases nodes.len(),
{
    if nodes.len() == 0 {
        Seq::empty()
    } else {
        inserted(sorted_seq(nodes.skip(1)), nodes[0])
    }
}

/// An entry with the entries of every directory below it in canonical order.
pub open spec fn canonical_of(node: NodeView) -> NodeView
    decreases node, 0nat,
{
    match node {
        NodeView::Branch(path, children) => NodeView::Branch(path, canonical(children)),
        _ => node,
    }
}

/// The entries of a forest, each with everything below it in canonical
/// order, in the order of the forest.
pub open spec fn canonical_forms(nodes: Seq<NodeView>) -> Seq<NodeView>
    decreases nodes, 0nat,
{
    Seq::new(
        nodes.len(),
        |i: int|
            if 0 <= i < nodes.len() {
                canonical_of(nodes[i])
            } else {
                NodeView::Leaf(Seq::empty())
            },
    )
}

/// A forest in canonical order at every level.
pub open spec fn canonical(nodes: Seq<NodeView>) -> Seq<NodeView>
    decreases nodes, 1nat,
{
    sorted_seq(canonical_forms(nodes))
}

/// Whether a forest is in canonical order at every level.
pub open spec fn is_sorted_throughout(nodes: Seq<NodeView>) -> bool
    decreases nodes,
{
    &&& is_sorted(nodes)
    &&& forall|i: int| 0 <= i < nodes.len() ==> sorted_below(#[trigger] nodes[i])
}

/// Whether every directory at or below `node` holds its entries in
/// canonical order.
pub open spec fn sorted_below(node: NodeView) -> bool
    decreases node,
{
    match node {
        NodeView::Branch(_, children) => is_sorted_throughout(children),
        _ => true,
    }
}

/// The place of an entry lies after everything that may stand before it and
/// before an entry that compares higher.
pub proof fn lemma_insert_position(sorted: Seq<NodeView>, node: NodeView, from: int)
    requires
        0 <= from <= sorted.len(),
        forall|k: int| 0 <= k < from ==> in_order(sorted[k], node),
    ensures
        from <= insert_position(sorted, node, from) <= sorted.len(),
        forall|k: int| 0 <= k < insert_position(sorted, node, from) ==> in_order(sorted[k], node),
        insert_position(sorted, node, from) < sorted.len() ==> compare(
            sorted[insert_position(sorted, node, from)],
            node,
        ) > 0,
    decreases sorted.len() - from,
{
    if from < sorted.len() && compare(sorted[from], node) <= 0 {
        lemma_insert_position(sorted, node, from + 1);
    }
}

/// Putting an entry in its place keeps a sorted sequence sorted and adds the
/// entry to what it holds.
pub proof fn lemma_inserted(sorted: Seq<NodeView>, node: NodeView)
    requires
        is_sorted(sorted),
    ensures
        is_sorted(inserted(sorted, node)),
        inserted(sorted, node).len() == sorted.len() + 1,
        inserted(sorted, node).to_multiset() == sorted.to_multiset().insert(node),
{
    broadcast use vstd::seq_lib::group_to_multiset_ensures;

    lemma_insert_position(sorted, node, 0);
    let at = insert_position(sorted, node, 0);
    let grown = inserted(sorted, node);
    assert forall|i: int, j: int| 0 <= i < j < grown.len() implies in_order(
        grown[i],
        grown[j],
    ) by {
        if j == at {
            assert(grown[i] == sorted[i]);
        } else if i == at {
            lemma_compare_antisymmetric(sorted[at], node);
            if j - 1 > at {
                lemma_in_order_transitive(node, sorted[at], sorted[j - 1]);
            }
        } else {
            let from = if i < at {
                i
            } else {
                i - 1
            };
            let to = if j < at {
                j
            } else {
                j - 1
            };
            assert(in_order(sorted[from], sorted[to]));
        }
    }
    assert(grown[at] == node);
    assert(grown.remove(at) =~= sorted);
    assert(grown.to_multiset().count(node) > 0);
    assert(grown.to_multiset() =~= sorted.to_multiset().insert(node));
}

/// Sorting gives a sequence in canonical order that holds the same entries,
/// each as often as before.
pub proof fn lemma_sorted_seq(nodes: Seq<NodeView>)
    ensures
        is_sorted(sorted_seq(nodes)),
        sorted_seq(nodes).to_multiset() == nodes.to_multiset(),
        sorted_seq(nodes).len() == nodes.len(),
    decreases nodes.len(),
{
    broadcast use vstd::seq_lib::group_to_multiset_ensures;

    if nodes.len() > 0 {
        let rest = nodes.skip(1);
        lemma_sorted_seq(rest);
        lemma_inserted(sorted_seq(rest), nodes[0]);
        assert(nodes.remove(0) =~= rest);
        vstd::seq_lib::to_multiset_remove(nodes, 0);
        assert(nodes.to_multiset().count(nodes[0]) > 0);
        assert(sorted_seq(nodes).to_multiset() =~= nodes.to_multiset());
    } else {
        assert(sorted_seq(nodes).to_multiset() =~= nodes.to_multiset());
    }
}

/// There is one canonical order: two sorted sequences that hold the same
/// entries, each equally often, are the same sequence.
pub proof fn lemma_sorted_is_unique(a: Seq<NodeView>, b: Seq<NodeView>)
    requires
        is_sorted(a),
        is_sorted(b),
        a.to_multiset() == b.to_multiset(),
    ensures
        a == b,
    decreases a.len(),
{
    a.to_multiset_ensures();
    b.to_multiset_ensures();
    if a.len() == 0 {
        assert(a =~= b);
    } else {
        assert(a.contains(a[0]));
        assert(b.to_multiset().count(a[0]) > 0);
        assert(b.contains(a[0]));
        let k = choose|k: int| 0 <= k < b.len() && b[k] == a[0];
        assert(b.contains(b[0]));
        assert(a.to_multiset().count(b[0]) > 0);
        assert(a.contains(b[0]));
        let m = choose|m: int| 0 <= m < a.len() && a[m] == b[0];
        assert(in_order(b[0], a[0])) by {
            if k > 0 {
                assert(in_order(b[0], b[k]));
            } else {
                lemma_compare_antisymmetric(b[0], b[0]);
            }
        }
        assert(in_order(a[0], b[0])) by {
            if m > 0 {
                assert(in_order(a[0], a[m]));
            } else {
                lemma_compare_antisymmetric(a[0], a[0]);
            }
        }
        lemma_compare_antisymmetric(a[0], b[0]);
        lemma_compare_equal(a[0], b[0]);
        vstd::seq_lib::to_multiset_remove(a, 0);
        vstd::seq_lib::to_multiset_remove(b, 0);
        assert(a.remove(0) =~= a.skip(1));
        assert(b.remove(0) =~= b.skip(1));
        assert forall|i: int, j: int| 0 <= i < j < a.skip(1).len() implies in_order(
            a.skip(1)[i],
            a.skip(1)[j],
        ) by {
            assert(in_order(a[i + 1], a[j + 1]));
        }
        assert forall|i: int, j: int| 0 <= i < j < b.skip(1).len() implies in_order(
            b.skip(1)[i],
            b.skip(1)[j],
        ) by {
            assert(in_order(b[i + 1], b[j + 1]));
        }
        lemma_sorted_is_unique(a.skip(1), b.skip(1));
        assert(a =~= seq![a[0]] + a.skip(1));
        assert(b =~= seq![b[0]] + b.skip(1));
    }
}

/// Sorting does not depend on the order in which the entries come: sequences
/// that hold the same entries, each equally often, sort alike.
pub proof fn lemma_sorted_seq_of_rearrangement(a: Seq<NodeView>, b: Seq<NodeView>)
    requires
        a.to_multiset() == b.to_multiset(),
    ensures
        sorted_seq(a) == sorted_seq(b),
{
    lemma_sorted_seq(a);
    lemma_sorted_seq(b);
    lemma_sorted_is_unique(sorted_seq(a), sorted_seq(b));
}

/// What sorting gives holds exactly the entries that went in.
pub proof fn lemma_sorted_seq_contains(nodes: Seq<NodeView>, node: NodeView)
    ensures
        sorted_seq(nodes).contains(node) == nodes.contains(node),
{
    let sorted = sorted_seq(nodes);
    lemma_sorted_seq(nodes);
    sorted.to_multiset_ensures();
    nodes.to_multiset_ensures();
    assert(sorted.contains(node) == (sorted.to_multiset().count(node) > 0));
    assert(nodes.contains(node) == (nodes.to_multiset().count(node) > 0));
}

/// The canonical form of a forest is in canonical order at every level.
pub proof fn lemma_canonical_is_sorted_throughout(nodes: Seq<NodeView>)
    ensures
        is_sorted_throughout(canonical(nodes)),
    decreases nodes,
{
    let forms = canonical_forms(nodes);
    let sorted = canonical(nodes);
    lemma_sorted_seq(forms);
    assert forall|i: int| 0 <= i < sorted.len() implies sorted_below(#[trigger] sorted[i]) by {
        lemma_sorted_seq_contains(forms, sorted[i]);
        assert(sorted.contains(sorted[i]));
        assert(forms.contains(sorted[i]));
        let k = choose|k: int| 0 <= k < forms.len() && forms[k] == sorted[i];
        assert(forms[k] == canonical_of(nodes[k]));
        match nodes[k] {
            NodeView::Branch(_, children) => {
                assert(decreases_to!(nodes => nodes[k]));
                assert(decreases_to!(nodes[k] => nodes[k]->Branch_1));
                lemma_canonical_is_sorted_throughout(children);
            },
            _ => {},
        }
    }
}

/// Puts entries into canonical order. The result holds the same entries,
/// each as often as before, and no entry stands before one that compares
/// lower.
pub fn sort_nodes(nodes: Vec<Node>) -> (sorted: Vec<Node>)
    ensures
        views(sorted@) == sorted_seq(views(nodes@)),
        is_sorted(views(sorted@)),
        views(sorted@).to_multiset() == views(nodes@).to_multiset(),
{
    let ghost all = views(nodes@);
    let mut rest = nodes;
    let mut sorted: Vec<Node> = Vec::new();
    assert(all.skip(all.len() as int) =~= Seq::empty());
    assert(views(sorted@) =~= Seq::empty());
    while rest.len() > 0
        invariant
            rest@.len() <= all.len(),
            views(rest@) == all.take(rest@.len() as int),
            views(sorted@) == sorted_seq(all.skip(rest@.len() as int)),
        decreases rest.len(),
    {
        let ghost placed = views(sorted@);
        let ghost before = rest@.len() as int;
        let node = rest.pop().unwrap();
        proof {
            assert(all.take(before)[before - 1] == node@);
            assert(all.skip(before - 1)[0] == node@);
            assert(all.skip(before - 1).skip(1) =~= all.skip(before));
            assert(views(rest@) =~= all.take(before - 1));
        }
        let mut at: usize = 0;
        while at < sorted.len() && compare_nodes(&sorted[at], &node) <= 0
            invariant
                at <= sorted.len(),
                placed == views(sorted@),
                insert_position(placed, node@, 0) == insert_position(placed, node@, at as int),
            decreases sorted.len() - at,
        {
            at += 1;
        }
        assert(views(sorted@.insert(at as int, node)) =~= placed.insert(at as int, node@));
        sorted.insert(at, node);
    }
    proof {
        assert(all.skip(0) =~= all);
        lemma_sorted_seq(all);
    }
    sorted
}

/// Puts a forest into canonical order at every level: the entries of each
/// directory, and the forest itself.
pub fn sort_tree(nodes: &[Node]) -> (sorted: Vec<Node>)
    ensures
        views(sorted@) == canonical(views(nodes@)),
        is_sorted_throughout(views(sorted@)),
    decreases nodes@,
{
    let mut prepared: Vec<Node> = Vec::new();
    let mut i: usize = 0;
    while i < nodes.len()
        invariant
            i <= nodes.len(),
            prepared@.len() == i,
            forall|k: int| 0 <= k < i ==> (#[trigger] prepared@[k])@ == canonical_of(nodes@[k]@),
        decreases nodes.len() - i,
    {
        let node = match &nodes[i] {
            Node::Branch(path, children) => {
                proof {
                    lemma_branch_view(*path, *children);
                    assert(decreases_to!(nodes@ => nodes@[i as int]));
                    assert(decreases_to!(nodes@[i as int] => nodes@[i as int]->Branch_1));
                    assert(decreases_to!(*children => children@));
                }
                let branch = Node::Branch(path.clone(), sort_tree(children.as_slice()));
                proof {
                    lemma_branch_view(branch->Branch_0, branch->Branch_1);
                }
                branch
            },
            other => other.clone(),
        };
        prepared.push(node);
        i += 1;
    }
    proof {
        assert(views(prepared@) =~= canonical_forms(views(nodes@)));
        lemma_canonical_is_sorted_throughout(views(nodes@));
    }
    sort_nodes(prepared)
}

} // verus!
