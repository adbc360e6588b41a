use linker::text::{contains_text, extract_basename};

#[test]
fn extract_basename_takes_what_follows_the_last_separator() {
    assert_eq!("leaf", extract_basename("/var/tmp/leaf"));
    assert_eq!("leaf", extract_basename("leaf"));
    assert_eq!("leaf.tar.gz", extract_basename("tmp/leaf.tar.gz"));
    assert_eq!("", extract_basename("/var/tmp/"));
    assert_eq!("", extract_basename("/"));
    assert_eq!("", extract_basename(""));
    assert_eq!("bär", extract_basename("/größe/bär"));
}

#[test]
fn contains_text_compares_whole_entries() {
    let list = vec!["leaf-1".to_string(), "*zip".to_string()];

    assert!(contains_text(&list, &"leaf-1".to_string()));
    assert!(contains_text(&list, &"*zip".to_string()));
    assert!(!contains_text(&list, &"leaf".to_string()));
    assert!(!contains_text(&list, &"a.zip".to_string()));
    assert!(!contains_text(&[], &"leaf".to_string()));
}
