use linker::collect_nodes::{collect_and_transform_nodes, Entry, EntryKind};
use linker::node::Node;

const ROOT: &str = "/tmp/node";

fn at(name: &str) -> String {
    format!("{}/{}", ROOT, name)
}

fn file(name: &str) -> Entry {
    Entry { path: Some(at(name)), kind: EntryKind::File }
}

fn symlink(name: &str, source: &str) -> Entry {
    Entry { path: Some(at(name)), kind: EntryKind::Symlink(at(source)) }
}

fn directory(name: &str, entries: Vec<Entry>) -> Entry {
    Entry { path: Some(at(name)), kind: EntryKind::Directory(collect_and_transform_nodes(entries)) }
}

#[test]
fn collect_nodes_with_empty_directory() {
    let expected: Vec<Node> = Vec::new();

    let actual = collect_and_transform_nodes(vec![]);

    assert_eq!(expected, actual)
}

#[test]
fn collect_nodes_with_leaf() {
    let expected = vec![Node::Leaf(at("leaf"))];

    let actual = collect_and_transform_nodes(vec![file("leaf")]);

    assert_eq!(expected, actual)
}

#[test]
fn collect_nodes_with_leaves() {
    let expected = vec![Node::Leaf(at("leaf-1")), Node::Leaf(at("leaf-2"))];

    let actual = collect_and_transform_nodes(vec![file("leaf-2"), file("leaf-1")]);

    assert_eq!(expected, actual)
}

#[test]
fn collect_nodes_with_link() {
    let expected = vec![Node::Leaf(at("original")), Node::Link(at("link"), at("original"))];

    let actual = collect_and_transform_nodes(vec![symlink("link", "original"), file("original")]);

    assert_eq!(expected, actual)
}

#[test]
fn collect_nodes_with_links() {
    let expected = vec![
        Node::Leaf(at("leaf-1")),
        Node::Leaf(at("leaf-2")),
        Node::Link(at("link-1"), at("leaf-1")),
        Node::Link(at("link-2"), at("leaf-2")),
    ];

    let actual = collect_and_transform_nodes(vec![
        symlink("link-2", "leaf-2"),
        file("leaf-1"),
        symlink("link-1", "leaf-1"),
        file("leaf-2"),
    ]);

    assert_eq!(expected, actual)
}

#[test]
fn collect_nodes_with_branch() {
    let expected = vec![Node::Branch(at("branch"), Vec::new())];

    let actual = collect_and_transform_nodes(vec![directory("branch", vec![])]);

    assert_eq!(expected, actual)
}

#[test]
fn collect_nodes_with_branches() {
    let expected = vec![
        Node::Branch(at("branch-1"), Vec::new()),
        Node::Branch(at("branch-2"), Vec::new()),
    ];

    let actual = collect_and_transform_nodes(vec![
        directory("branch-2", vec![]),
        directory("branch-1", vec![]),
    ]);

    assert_eq!(expected, actual)
}

#[test]
fn collect_nodes_with_branch_containing_leaf() {
    let expected = vec![Node::Branch(at("branch"), vec![Node::Leaf(at("branch/leaf"))])];

    let actual = collect_and_transform_nodes(vec![directory("branch", vec![file("branch/leaf")])]);

    assert_eq!(expected, actual)
}

#[test]
fn collect_nodes_with_branches_containing_leaf() {
    let expected = vec![
        Node::Branch(at("branch-1"), vec![Node::Leaf(at("branch-1/leaf"))]),
        Node::Branch(at("branch-2"), vec![Node::Leaf(at("branch-2/leaf"))]),
    ];

    let actual = collect_and_transform_nodes(vec![
        directory("branch-2", vec![file("branch-2/leaf")]),
        directory("branch-1", vec![file("branch-1/leaf")]),
    ]);

    assert_eq!(expected, actual)
}

#[test]
fn collect_nodes_with_branch_containing_link() {
    let expected = vec![
        Node::Branch(
            at("branch"),
            vec![Node::Leaf(at("branch/leaf")), Node::Link(at("branch/link"), at("branch/leaf"))],
        ),
    ];

    let actual = collect_and_transform_nodes(vec![
        directory("branch", vec![symlink("branch/link", "branch/leaf"), file("branch/leaf")]),
    ]);

    assert_eq!(expected, actual)
}

#[test]
fn collect_nodes_with_branches_containing_link() {
    let expected = vec![
        Node::Branch(
            at("branch-1"),
            vec![
                Node::Leaf(at("branch-1/leaf")),
                Node::Link(at("branch-1/link"), at("branch-1/leaf")),
            ],
        ),
        Node::Branch(
            at("branch-2"),
            vec![
                Node::Leaf(at("branch-2/leaf")),
                Node::Link(at("branch-2/link"), at("branch-2/leaf")),
            ],
        ),
    ];

    let actual = collect_and_transform_nodes(vec![
        directory("branch-1", vec![symlink("branch-1/link", "branch-1/leaf"), file("branch-1/leaf")]),
        directory("branch-2", vec![file("branch-2/leaf"), symlink("branch-2/link", "branch-2/leaf")]),
    ]);

    assert_eq!(expected, actual)
}

#[test]
fn collect_nodes_with_branch_containing_leaves() {
    let expected = vec![
        Node::Branch(
            at("branch"),
            vec![Node::Leaf(at("branch/leaf-1")), Node::Leaf(at("branch/leaf-2"))],
        ),
    ];

    let actual = collect_and_transform_nodes(vec![
        directory("branch", vec![file("branch/leaf-2"), file("branch/leaf-1")]),
    ]);

    assert_eq!(expected, actual)
}

#[test]
fn collect_nodes_with_branches_containing_leaves() {
    let expected = vec![
        Node::Branch(
            at("branch-1"),
            vec![Node::Leaf(at("branch-1/leaf-1")), Node::Leaf(at("branch-1/leaf-2"))],
        ),
        Node::Branch(
            at("branch-2"),
            vec![Node::Leaf(at("branch-2/leaf-1")), Node::Leaf(at("branch-2/leaf-2"))],
        ),
    ];

    let actual = collect_and_transform_nodes(vec![
        directory("branch-2", vec![file("branch-2/leaf-1"), file("branch-2/leaf-2")]),
        directory("branch-1", vec![file("branch-1/leaf-2"), file("branch-1/leaf-1")]),
    ]);

    assert_eq!(expected, actual)
}

#[test]
fn collect_nodes_with_branch_containing_links() {
    let expected = vec![
        Node::Branch(
            at("branch"),
            vec![
                Node::Leaf(at("branch/leaf-1")),
                Node::Leaf(at("branch/leaf-2")),
                Node::Link(at("branch/link-1"), at("branch/leaf-1")),
                Node::Link(at("branch/link-2"), at("branch/leaf-2")),
            ],
        ),
    ];

    let actual = collect_and_transform_nodes(vec![
        directory(
            "branch",
            vec![
                file("branch/leaf-1"),
                symlink("branch/link-1", "branch/leaf-1"),
                file("branch/leaf-2"),
                symlink("branch/link-2", "branch/leaf-2"),
            ],
        ),
    ]);

    assert_eq!(expected, actual)
}

#[test]
fn collect_nodes_with_branches_containing_links() {
    let expected = vec![
        Node::Branch(
            at("branch-1"),
            vec![
                Node::Leaf(at("branch-1/leaf-1")),
                Node::Leaf(at("branch-1/leaf-2")),
                Node::Link(at("branch-1/link-1"), at("branch-1/leaf-1")),
                Node::Link(at("branch-1/link-2"), at("branch-1/leaf-2")),
            ],
        ),
        Node::Branch(
            at("branch-2"),
            vec![
                Node::Leaf(at("branch-2/leaf-3")),
                Node::Leaf(at("branch-2/leaf-4")),
                Node::Link(at("branch-2/link-3"), at("branch-2/leaf-3")),
                Node::Link(at("branch-2/link-4"), at("branch-2/leaf-4")),
            ],
        ),
    ];

    let actual = collect_and_transform_nodes(vec![
        directory(
            "branch-1",
            vec![
                file("branch-1/leaf-1"),
                symlink("branch-1/link-1", "branch-1/leaf-1"),
                file("branch-1/leaf-2"),
                symlink("branch-1/link-2", "branch-1/leaf-2"),
            ],
        ),
        directory(
            "branch-2",
            vec![
                file("branch-2/leaf-3"),
                symlink("branch-2/link-3", "branch-2/leaf-3"),
                file("branch-2/leaf-4"),
                symlink("branch-2/link-4", "branch-2/leaf-4"),
            ],
        ),
    ]);

    assert_eq!(expected, actual)
}
