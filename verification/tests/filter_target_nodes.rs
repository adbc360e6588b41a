use linker::filter_target_nodes::{filter_links, filter_target_nodes};
use linker::node::Node;

#[test]
fn filter_target_nodes_without_nodes() {
    let nodes: Vec<Node> = Vec::new();
    let expected: Vec<Node> = Vec::new();

    let actual = filter_target_nodes(&nodes);

    assert_eq!(expected, actual)
}

#[test]
fn filter_target_nodes_with_leaf() {
    let nodes: Vec<Node> = vec![
        Node::Leaf("/var/tmp/leaf".to_string())
    ];
    let expected: Vec<Node> = Vec::new();

    let actual = filter_target_nodes(&nodes);

    assert_eq!(expected, actual)
}

#[test]
fn filter_target_nodes_with_leaves() {
    let nodes: Vec<Node> = vec![
        Node::Leaf("/var/tmp/leaf-1".to_string()),
        Node::Leaf("/var/tmp/leaf-2".to_string()),
    ];
    let expected: Vec<Node> = Vec::new();

    let actual = filter_target_nodes(&nodes);

    assert_eq!(expected, actual)
}

#[test]
fn filter_target_nodes_with_link() {
    let nodes: Vec<Node> = vec![
        Node::Link("/var/tmp/link".to_string(), "/var/tmp/leaf".to_string()),
    ];
    let expected: Vec<Node> = vec![
        Node::Link("/var/tmp/link".to_string(), "/var/tmp/leaf".to_string()),
    ];

    let actual = filter_target_nodes(&nodes);

    assert_eq!(expected, actual)
}

#[test]
fn filter_target_nodes_with_nested_link() {
    let nodes: Vec<Node> = vec![
        Node::Leaf("/var/tmp/leaf".to_string()),
        Node::Branch(
            "/var/tmp/branch".to_string(),
            vec![
                Node::Link("/var/tmp/branch/link".to_string(), "/var/tmp/leaf".to_string())
            ],
        ),
    ];
    let expected: Vec<Node> = vec![
        Node::Link("/var/tmp/branch/link".to_string(), "/var/tmp/leaf".to_string()),
    ];

    let actual = filter_target_nodes(&nodes);

    assert_eq!(expected, actual)
}

#[test]
fn filter_target_nodes_with_branch() {
    let nodes: Vec<Node> = vec![
        Node::Branch("/var/tmp/branch".to_string(), Vec::new())
    ];
    let expected: Vec<Node> = Vec::new();

    let actual = filter_target_nodes(&nodes);

    assert_eq!(expected, actual)
}

#[test]
fn filter_target_nodes_with_branches() {
    let nodes: Vec<Node> = vec![
        Node::Branch("/var/tmp/branch-1".to_string(), Vec::new()),
        Node::Branch("/var/tmp/branch-2".to_string(), Vec::new()),
    ];
    let expected: Vec<Node> = Vec::new();

    let actual = filter_target_nodes(&nodes);

    assert_eq!(expected, actual)
}

#[test]
fn filter_target_nodes_keeps_links_in_the_order_of_the_tree() {
    let nodes: Vec<Node> = vec![
        Node::Link("/t/a".to_string(), "/s/a".to_string()),
        Node::Branch(
            "/t/dir".to_string(),
            vec![
                Node::Leaf("/t/dir/leaf".to_string()),
                Node::Branch(
                    "/t/dir/sub".to_string(),
                    vec![Node::Link("/t/dir/sub/b".to_string(), "/s/b".to_string())],
                ),
                Node::Link("/t/dir/c".to_string(), "/s/c".to_string()),
            ],
        ),
        Node::Link("/t/d".to_string(), "/s/d".to_string()),
    ];
    let expected: Vec<Node> = vec![
        Node::Link("/t/a".to_string(), "/s/a".to_string()),
        Node::Link("/t/dir/sub/b".to_string(), "/s/b".to_string()),
        Node::Link("/t/dir/c".to_string(), "/s/c".to_string()),
        Node::Link("/t/d".to_string(), "/s/d".to_string()),
    ];

    let actual = filter_target_nodes(&nodes);

    assert_eq!(expected, actual)
}

#[test]
fn filter_links_of_one_node() {
    let link = Node::Link("/t/a".to_string(), "/s/a".to_string());

    assert_eq!(vec![link.clone()], filter_links(&link));
    assert_eq!(Vec::<Node>::new(), filter_links(&Node::Leaf("/t/leaf".to_string())));
    assert_eq!(
        vec![link.clone()],
        filter_links(&Node::Branch("/t".to_string(), vec![link.clone()]))
    );
}
