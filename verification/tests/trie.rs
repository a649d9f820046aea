use clash_core::trie::{Node, StringTrie, valid_and_splic_domain};
use std::sync::Arc;

const LOCAL_IP: u32 = 0x7f00_0001;

#[test]
fn test_basic() {
    let mut tree = StringTrie::new();

    let domains = vec!["example.com", "google.com", "localhost"];

    for d in domains {
        tree.insert(d, Arc::new(LOCAL_IP));
    }

    let node = tree.search("example.com").expect("should be not nil");
    assert_eq!(node.data.as_ref().expect("data nil").as_ref(), &LOCAL_IP);
    assert_eq!(tree.insert("", Arc::new(LOCAL_IP)), false);
    assert!(tree.search("").is_none());
    assert!(tree.search("localhost").is_some());
    assert!(tree.search("www.google.com").is_none());
}

#[test]
fn test_wildcard() {
    let mut tree = StringTrie::new();

    let domains = vec![
        "*.example.com",
        "sub.*.example.com",
        "*.dev",
        ".org",
        ".example.net",
        ".apple.*",
        "+.foo.com",
        "+.stun.*.*",
        "+.stun.*.*.*",
        "+.stun.*.*.*.*",
        "stun.l.google.com",
    ];

    for d in domains {
        tree.insert(d, Arc::new(LOCAL_IP));
    }

    assert!(tree.search("sub.example.com").is_some());
    assert!(tree.search("sub.foo.example.com").is_some());
    assert!(tree.search("test.org").is_some());
    assert!(tree.search("test.example.net").is_some());
    assert!(tree.search("test.apple.com").is_some());
    assert!(tree.search("foo.com").is_some());
    assert!(tree.search("global.stun.website.com").is_some());

    assert!(tree.search("foo.sub.example.com").is_none());
    assert!(tree.search("foo.example.dev").is_none());
    assert!(tree.search("example.com").is_none());
}

#[test]
fn test_priority() {
    let mut tree = StringTrie::new();

    let domains = vec![".dev", "example.dev", "*.example.dev", "test.example.dev"];

    for (idx, d) in domains.iter().enumerate() {
        tree.insert(d, Arc::new(idx));
    }

    let assert_fn = |k: &str| -> Arc<usize> { tree.search(k).unwrap().data.clone().unwrap() };

    assert_eq!(assert_fn("test.dev"), Arc::new(0));
    assert_eq!(assert_fn("foo.bar.dev"), Arc::new(0));
    assert_eq!(assert_fn("example.dev"), Arc::new(1));
    assert_eq!(assert_fn("foo.example.dev"), Arc::new(2));
    assert_eq!(assert_fn("test.example.dev"), Arc::new(3));
}

#[test]
fn test_boundtry() {
    let mut tree = StringTrie::new();

    tree.insert("*.dev", Arc::new(LOCAL_IP));
    assert!(!tree.insert(".", Arc::new(LOCAL_IP)));
    assert!(!tree.insert("..dev", Arc::new(LOCAL_IP)));
    assert!(tree.search("dev").is_none());
}

#[test]
fn test_wildcard_boundry() {
    let mut tree = StringTrie::new();
    tree.insert("+.*", Arc::new(LOCAL_IP));
    tree.insert("stun.*.*.*", Arc::new(LOCAL_IP));

    assert!(tree.search("example.com").is_some());
}

#[test]
fn test_invalid_patterns_leave_trie_unchanged() {
    let mut tree = StringTrie::new();
    tree.insert("example.dev", Arc::new(1u32));

    assert!(!tree.insert("", Arc::new(2u32)));
    assert!(!tree.insert(".", Arc::new(2u32)));
    assert!(!tree.insert("..dev", Arc::new(2u32)));
    assert!(!tree.insert("example.com.", Arc::new(2u32)));

    let node = tree.search("example.dev").expect("unchanged entry");
    assert_eq!(node.data.clone().unwrap(), Arc::new(1u32));
    assert!(tree.search("dev").is_none());
    assert!(tree.search("example.com").is_none());
}

#[test]
fn test_plus_shares_payload() {
    let mut tree = StringTrie::new();
    tree.insert("+.foo.com", Arc::new(9u32));

    let bare = tree.search("foo.com").unwrap().data.clone().unwrap();
    let deep = tree.search("a.b.foo.com").unwrap().data.clone().unwrap();
    assert!(Arc::ptr_eq(&bare, &deep));
    assert_eq!(bare, Arc::new(9u32));
}

#[test]
fn test_overwrite_at_same_pattern() {
    let mut tree = StringTrie::new();
    tree.insert("example.com", Arc::new(1u32));
    tree.insert("example.com", Arc::new(2u32));
    let node = tree.search("example.com").unwrap();
    assert_eq!(node.data.clone().unwrap(), Arc::new(2u32));
}

#[test]
fn test_single_label_and_empty_query() {
    let mut tree = StringTrie::new();
    assert!(tree.insert("localhost", Arc::new(5u32)));
    assert!(tree.search("localhost").is_some());
    assert!(tree.search("").is_none());
    assert!(tree.search("host.localhost").is_none());
}

#[test]
fn test_node_primitives() {
    let mut n: Node<u32> = Node::new();
    assert!(!n.has_child(&String::from("com")));
    n.add_child(String::from("com"), Node::new());
    assert!(n.has_child(&String::from("com")));
    assert!(n.get_child(&String::from("com")).is_some());
    assert!(n.get_child(&String::from("org")).is_none());
}

#[test]
fn test_valid_and_splic_domain() {
    let (parts, valid) = valid_and_splic_domain("a.b.c");
    assert!(valid);
    assert_eq!(parts.unwrap(), vec!["a", "b", "c"]);

    let (parts, valid) = valid_and_splic_domain(".org");
    assert!(valid);
    assert_eq!(parts.unwrap(), vec!["", "org"]);

    assert!(!valid_and_splic_domain("").1);
    assert!(!valid_and_splic_domain(".").1);
    assert!(!valid_and_splic_domain("a..b").1);
    assert!(!valid_and_splic_domain("trailing.dot.").1);
}
