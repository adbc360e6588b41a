use linker::configuration::LinkMap;
use linker::match_link_maps::{
    find_link_map_match, is_link_map_match, link_maps_are_valid, match_link_maps,
    try_match_link_maps,
};
use linker::node::Node;

// Leaf

#[test]
fn match_leaf_with_empty_path() {
    let node: Node = Node::Leaf(
        "".to_string()
    );
    let link_maps: Vec<LinkMap> = Vec::new();
    let expected: Option<Node> = None;

    let actual = match_link_maps(&node, &link_maps);

    assert_eq!(expected, actual)
}

#[test]
fn match_leaf_without_link_maps() {
    let node: Node = Node::Leaf(
        "/var/tmp/sources/leaf".to_string()
    );
    let link_maps: Vec<LinkMap> = Vec::new();
    let expected: Option<Node> = None;

    let actual = match_link_maps(&node, &link_maps);

    assert_eq!(expected, actual)
}

#[test]
fn match_leaf_without_matching_link_map() {
    let node: Node = Node::Leaf(
        "/var/tmp/sources/leaf".to_string()
    );
    let link_maps: Vec<LinkMap> = vec![
        LinkMap {
            regex: "regex".to_string(),
            target: "/var/tmp/targets".to_string(),
        }
    ];
    let expected: Option<Node> = None;

    let actual = match_link_maps(&node, &link_maps);

    assert_eq!(expected, actual)
}

#[test]
fn match_leaf_with_matching_link_map() {
    let node: Node = Node::Leaf(
        "/var/tmp/sources/leaf".to_string()
    );
    let link_maps: Vec<LinkMap> = vec![
        LinkMap {
            regex: "leaf".to_string(),
            target: "/var/tmp/targets".to_string(),
        }
    ];
    let expected: Option<Node> = Some(
        Node::Link(
            "/var/tmp/targets/leaf".to_string(),
            "/var/tmp/sources/leaf".to_string(),
        )
    );

    let actual = match_link_maps(&node, &link_maps);

    assert_eq!(expected, actual)
}

#[test]
fn match_leaf_with_matching_link_map_using_regex() {
    let node: Node = Node::Leaf(
        "/var/tmp/sources/leaf-1".to_string()
    );
    let link_maps: Vec<LinkMap> = vec![
        LinkMap {
            regex: "leaf[-](\\d{1})".to_string(),
            target: "/var/tmp/targets".to_string(),
        }
    ];
    let expected: Option<Node> = Some(
        Node::Link(
            "/var/tmp/targets/leaf-1".to_string(),
            "/var/tmp/sources/leaf-1".to_string(),
        )
    );

    let actual = match_link_maps(&node, &link_maps);

    assert_eq!(expected, actual)
}

// Link

#[test]
fn match_link_with_empty_path() {
    let node: Node = Node::Link(
        "".to_string(),
        "".to_string(),
    );
    let link_maps: Vec<LinkMap> = Vec::new();
    let expected: Option<Node> = None;

    let actual = match_link_maps(&node, &link_maps);

    assert_eq!(expected, actual)
}

#[test]
fn match_link_without_link_maps() {
    let node: Node = Node::Link(
        "/var/tmp/sources/link".to_string(),
        "/var/tmp/sources/leaf".to_string(),
    );
    let link_maps: Vec<LinkMap> = Vec::new();
    let expected: Option<Node> = None;

    let actual = match_link_maps(&node, &link_maps);

    assert_eq!(expected, actual)
}

// Branch

#[test]
fn match_branch_with_empty_path() {
    let node: Node = Node::Branch(
        "".to_string(),
        Vec::new(),
    );
    let link_maps: Vec<LinkMap> = Vec::new();
    let expected: Option<Node> = None;

    let actual = match_link_maps(&node, &link_maps);

    assert_eq!(expected, actual)
}

#[test]
fn match_branch_without_link_maps() {
    let node: Node = Node::Branch(
        "/var/tmp/sources/branch".to_string(),
        Vec::new(),
    );
    let link_maps: Vec<LinkMap> = Vec::new();
    let expected: Option<Node> = None;

    let actual = match_link_maps(&node, &link_maps);

    assert_eq!(expected, actual)
}

#[test]
fn match_branch_without_matching_link_map() {
    let node: Node = Node::Branch(
        "/var/tmp/sources/branch".to_string(),
        Vec::new(),
    );
    let link_maps: Vec<LinkMap> = vec![
        LinkMap {
            regex: "regex".to_string(),
            target: "/var/tmp/targets".to_string(),
        }
    ];
    let expected: Option<Node> = None;

    let actual = match_link_maps(&node, &link_maps);

    assert_eq!(expected, actual)
}

#[test]
fn match_branch_with_matching_link_map() {
    let node: Node = Node::Branch(
        "/var/tmp/sources/branch".to_string(),
        Vec::new(),
    );
    let link_maps: Vec<LinkMap> = vec![
        LinkMap {
            regex: "branch".to_string(),
            target: "/var/tmp/targets".to_string(),
        }
    ];
    let expected: Option<Node> = Some(
        Node::Link(
            "/var/tmp/targets/branch".to_string(),
            "/var/tmp/sources/branch".to_string(),
        )
    );

    let actual = match_link_maps(&node, &link_maps);

    assert_eq!(expected, actual)
}

#[test]
fn match_leaf_with_several_matching_link_maps_takes_the_last() {
    let node: Node = Node::Leaf("/var/tmp/sources/leaf".to_string());
    let link_maps: Vec<LinkMap> = vec![
        LinkMap { regex: "leaf".to_string(), target: "/a".to_string() },
        LinkMap { regex: "leaf".to_string(), target: "/b".to_string() },
    ];
    let expected: Option<Node> = Some(
        Node::Link("/b/leaf".to_string(), "/var/tmp/sources/leaf".to_string()),
    );

    let actual = match_link_maps(&node, &link_maps);

    assert_eq!(expected, actual)
}

#[test]
fn match_leaf_skips_later_link_maps_that_do_not_match() {
    let node: Node = Node::Leaf("/var/tmp/sources/leaf".to_string());
    let link_maps: Vec<LinkMap> = vec![
        LinkMap { regex: "other".to_string(), target: "/a".to_string() },
        LinkMap { regex: "^le".to_string(), target: "/b".to_string() },
        LinkMap { regex: "^af".to_string(), target: "/c".to_string() },
    ];
    let expected: Option<Node> = Some(
        Node::Link("/b/leaf".to_string(), "/var/tmp/sources/leaf".to_string()),
    );

    let actual = match_link_maps(&node, &link_maps);

    assert_eq!(expected, actual)
}

#[test]
fn match_leaf_by_its_final_segment_only() {
    let node: Node = Node::Leaf("/var/sources/leaf".to_string());
    let link_maps: Vec<LinkMap> = vec![
        LinkMap { regex: "sources".to_string(), target: "/a".to_string() },
    ];

    let actual = match_link_maps(&node, &link_maps);

    assert_eq!(None, actual)
}

#[test]
fn match_leaf_without_separator_uses_the_whole_path() {
    let node: Node = Node::Leaf("leaf".to_string());
    let link_maps: Vec<LinkMap> = vec![
        LinkMap { regex: "^leaf$".to_string(), target: "/a".to_string() },
    ];
    let expected: Option<Node> = Some(Node::Link("/a/leaf".to_string(), "leaf".to_string()));

    let actual = match_link_maps(&node, &link_maps);

    assert_eq!(expected, actual)
}

#[test]
fn try_match_reports_a_rule_that_does_not_compile() {
    let node: Node = Node::Leaf("/var/tmp/sources/leaf".to_string());
    let valid: Vec<LinkMap> = vec![
        LinkMap { regex: "leaf".to_string(), target: "/a".to_string() },
    ];
    let invalid: Vec<LinkMap> = vec![
        LinkMap { regex: "leaf".to_string(), target: "/a".to_string() },
        LinkMap { regex: "le[af".to_string(), target: "/b".to_string() },
    ];

    assert_eq!(
        Some(Some(Node::Link("/a/leaf".to_string(), "/var/tmp/sources/leaf".to_string()))),
        try_match_link_maps(&node, &valid)
    );
    assert_eq!(None, try_match_link_maps(&node, &invalid));
    assert!(link_maps_are_valid(&valid));
    assert!(!link_maps_are_valid(&invalid));
}

#[test]
fn find_link_map_match_joins_target_and_name() {
    let link_maps: Vec<LinkMap> = vec![
        LinkMap { regex: "\\.txt$".to_string(), target: "/t/docs".to_string() },
    ];

    assert_eq!(
        Some(Node::Link("/t/docs/a.txt".to_string(), "/s/x/a.txt".to_string())),
        find_link_map_match(&"/s/x/a.txt".to_string(), &link_maps)
    );
    assert_eq!(None, find_link_map_match(&"".to_string(), &link_maps));
}

#[test]
fn is_link_map_match_searches_anywhere_in_the_name() {
    let link_map = LinkMap { regex: "b+".to_string(), target: "/t".to_string() };

    assert!(is_link_map_match("aabba", &link_map));
    assert!(!is_link_map_match("aaa", &link_map));
    assert!(!is_link_map_match("", &link_map));
}

#[test]
fn link_map_new_keeps_both_parts() {
    let expected = LinkMap { regex: "leaf".to_string(), target: "/t".to_string() };

    let actual = LinkMap::new("leaf".to_string(), "/t".to_string());

    assert_eq!(Ok(expected), actual)
}
