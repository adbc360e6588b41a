use linker::node::Node;
use linker::order::{compare_nodes, compare_paths, sort_nodes, sort_tree};

#[test]
fn compare_paths_orders_by_bytes() {
    assert_eq!(0, compare_paths("", ""));
    assert_eq!(-1, compare_paths("", "a"));
    assert_eq!(1, compare_paths("a", ""));
    assert_eq!(0, compare_paths("/var/tmp", "/var/tmp"));
    assert_eq!(-1, compare_paths("/var/tmp", "/var/tmp/leaf"));
    assert_eq!(-1, compare_paths("leaf-1", "leaf-2"));
    assert_eq!(1, compare_paths("leaf-2", "leaf-10"));
    assert_eq!(-1, compare_paths("Z", "a"));
    assert_eq!(1, compare_paths("é", "z"));
}

#[test]
fn compare_paths_agrees_with_the_order_of_strings() {
    let samples = ["", "a", "ab", "b", "B", "/", "/a/b", "/a-b", "é", "日本", "z"];
    for a in samples {
        for b in samples {
            let expected = if a < b {
                -1
            } else if a == b {
                0
            } else {
                1
            };
            assert_eq!(expected, compare_paths(a, b), "{:?} against {:?}", a, b);
        }
    }
}

#[test]
fn compare_nodes_ranks_kinds_before_paths() {
    let leaf = Node::Leaf("/z".to_string());
    let link = Node::Link("/m".to_string(), "/z".to_string());
    let branch = Node::Branch("/a".to_string(), vec![]);

    assert_eq!(-1, compare_nodes(&leaf, &link));
    assert_eq!(-1, compare_nodes(&link, &branch));
    assert_eq!(-1, compare_nodes(&leaf, &branch));
    assert_eq!(1, compare_nodes(&branch, &leaf));
    assert_eq!(1, compare_nodes(&link, &leaf));
    assert_eq!(0, compare_nodes(&branch, &branch));
}

#[test]
fn compare_nodes_orders_links_by_path_then_source() {
    let first = Node::Link("/a".to_string(), "/y".to_string());
    let second = Node::Link("/a".to_string(), "/z".to_string());
    let third = Node::Link("/b".to_string(), "/x".to_string());

    assert_eq!(-1, compare_nodes(&first, &second));
    assert_eq!(-1, compare_nodes(&second, &third));
    assert_eq!(1, compare_nodes(&third, &first));
}

#[test]
fn compare_nodes_orders_branches_by_path_then_children() {
    let empty = Node::Branch("/a".to_string(), vec![]);
    let one = Node::Branch("/a".to_string(), vec![Node::Leaf("/a/x".to_string())]);
    let two = Node::Branch(
        "/a".to_string(),
        vec![Node::Leaf("/a/x".to_string()), Node::Leaf("/a/y".to_string())],
    );
    let other = Node::Branch("/a".to_string(), vec![Node::Leaf("/a/y".to_string())]);
    let later = Node::Branch("/b".to_string(), vec![]);

    assert_eq!(-1, compare_nodes(&empty, &one));
    assert_eq!(-1, compare_nodes(&one, &two));
    assert_eq!(-1, compare_nodes(&two, &other));
    assert_eq!(-1, compare_nodes(&other, &later));
    assert_eq!(1, compare_nodes(&later, &two));
    assert_eq!(0, compare_nodes(&two, &two));
}

#[test]
fn compare_nodes_agrees_with_the_derived_order() {
    let samples = vec![
        Node::Leaf("".to_string()),
        Node::Leaf("/a".to_string()),
        Node::Leaf("/b".to_string()),
        Node::Link("/a".to_string(), "/b".to_string()),
        Node::Link("/a".to_string(), "/c".to_string()),
        Node::Branch("/a".to_string(), vec![]),
        Node::Branch("/a".to_string(), vec![Node::Leaf("/a/b".to_string())]),
        Node::Branch("/a".to_string(), vec![Node::Link("/a/b".to_string(), "/c".to_string())]),
        Node::Branch("/b".to_string(), vec![]),
    ];
    for a in &samples {
        for b in &samples {
            let expected = if a < b {
                -1
            } else if a == b {
                0
            } else {
                1
            };
            assert_eq!(expected, compare_nodes(a, b), "{:?} against {:?}", a, b);
        }
    }
}

#[test]
fn sort_nodes_groups_by_kind_then_path() {
    let nodes = vec![
        Node::Branch("/s/a".to_string(), vec![]),
        Node::Link("/s/b".to_string(), "/s/z".to_string()),
        Node::Leaf("/s/z".to_string()),
        Node::Leaf("/s/c".to_string()),
        Node::Branch("/s/0".to_string(), vec![Node::Leaf("/s/0/x".to_string())]),
        Node::Link("/s/a-link".to_string(), "/s/c".to_string()),
    ];
    let expected = vec![
        Node::Leaf("/s/c".to_string()),
        Node::Leaf("/s/z".to_string()),
        Node::Link("/s/a-link".to_string(), "/s/c".to_string()),
        Node::Link("/s/b".to_string(), "/s/z".to_string()),
        Node::Branch("/s/0".to_string(), vec![Node::Leaf("/s/0/x".to_string())]),
        Node::Branch("/s/a".to_string(), vec![]),
    ];

    let actual = sort_nodes(nodes);

    assert_eq!(expected, actual)
}

#[test]
fn sort_nodes_keeps_duplicates_and_agrees_with_sort() {
    let nodes = vec![
        Node::Leaf("b".to_string()),
        Node::Leaf("a".to_string()),
        Node::Leaf("b".to_string()),
        Node::Branch("a".to_string(), vec![Node::Leaf("a/1".to_string())]),
        Node::Branch("a".to_string(), vec![]),
        Node::Link("a".to_string(), "b".to_string()),
    ];
    let mut expected = nodes.clone();
    expected.sort();

    let actual = sort_nodes(nodes);

    assert_eq!(expected, actual)
}

#[test]
fn sort_nodes_without_nodes() {
    assert_eq!(Vec::<Node>::new(), sort_nodes(vec![]))
}

#[test]
fn node_clone_copies_the_whole_tree() {
    let node = Node::Branch(
        "/s/dir".to_string(),
        vec![
            Node::Leaf("/s/dir/f".to_string()),
            Node::Branch(
                "/s/dir/sub".to_string(),
                vec![Node::Link("/s/dir/sub/l".to_string(), "/s/dir/f".to_string())],
            ),
        ],
    );

    assert_eq!(node, node.clone())
}

#[test]
fn sort_nodes_leaves_the_entries_of_directories_alone() {
    let unsorted_branch = Node::Branch(
        "/s/dir".to_string(),
        vec![Node::Leaf("/s/dir/b".to_string()), Node::Leaf("/s/dir/a".to_string())],
    );
    let nodes = vec![unsorted_branch.clone(), Node::Leaf("/s/leaf".to_string())];

    let actual = sort_nodes(nodes);

    assert_eq!(vec![Node::Leaf("/s/leaf".to_string()), unsorted_branch], actual)
}

#[test]
fn sort_tree_sorts_every_level() {
    let nodes = vec![
        Node::Branch(
            "/s/dir".to_string(),
            vec![
                Node::Branch(
                    "/s/dir/sub".to_string(),
                    vec![
                        Node::Link("/s/dir/sub/l".to_string(), "/s/x".to_string()),
                        Node::Leaf("/s/dir/sub/z".to_string()),
                        Node::Leaf("/s/dir/sub/y".to_string()),
                    ],
                ),
                Node::Leaf("/s/dir/b".to_string()),
                Node::Leaf("/s/dir/a".to_string()),
            ],
        ),
        Node::Leaf("/s/leaf".to_string()),
    ];
    let expected = vec![
        Node::Leaf("/s/leaf".to_string()),
        Node::Branch(
            "/s/dir".to_string(),
            vec![
                Node::Leaf("/s/dir/a".to_string()),
                Node::Leaf("/s/dir/b".to_string()),
                Node::Branch(
                    "/s/dir/sub".to_string(),
                    vec![
                        Node::Leaf("/s/dir/sub/y".to_string()),
                        Node::Leaf("/s/dir/sub/z".to_string()),
                        Node::Link("/s/dir/sub/l".to_string(), "/s/x".to_string()),
                    ],
                ),
            ],
        ),
    ];

    let actual = sort_tree(&nodes);

    assert_eq!(expected, actual)
}

#[test]
fn sort_tree_orders_directories_by_their_sorted_entries() {
    let nodes = vec![
        Node::Branch(
            "/s/dir".to_string(),
            vec![Node::Leaf("/s/dir/c".to_string()), Node::Leaf("/s/dir/a".to_string())],
        ),
        Node::Branch(
            "/s/dir".to_string(),
            vec![Node::Leaf("/s/dir/b".to_string()), Node::Leaf("/s/dir/a".to_string())],
        ),
    ];
    let expected = vec![
        Node::Branch(
            "/s/dir".to_string(),
            vec![Node::Leaf("/s/dir/a".to_string()), Node::Leaf("/s/dir/b".to_string())],
        ),
        Node::Branch(
            "/s/dir".to_string(),
            vec![Node::Leaf("/s/dir/a".to_string()), Node::Leaf("/s/dir/c".to_string())],
        ),
    ];

    let actual = sort_tree(&nodes);

    assert_eq!(expected, actual)
}

#[test]
fn sort_tree_without_nodes() {
    assert_eq!(Vec::<Node>::new(), sort_tree(&[]))
}
