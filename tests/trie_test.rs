use lrucacherust::TrieNode;

#[test]
fn inserted_word_is_found() {
    let mut root = TrieNode::new('#');
    root.insert("nitish");
    assert!(root.search("nitish"));
}

#[test]
fn prefix_is_not_a_word() {
    let mut root = TrieNode::new('#');
    root.insert("nitish");
    assert!(!root.search("nit"));
    assert!(!root.search("nitishs"));
    assert!(!root.search(""));
}

#[test]
fn shared_prefixes() {
    let mut root = TrieNode::new('#');
    root.insert("car");
    root.insert("cart");
    root.insert("cat");
    assert!(root.search("car"));
    assert!(root.search("cart"));
    assert!(root.search("cat"));
    assert!(!root.search("ca"));
}

#[test]
fn delete_removes_only_that_word() {
    let mut root = TrieNode::new('#');
    root.insert("car");
    root.insert("cart");
    root.delete("car");
    assert!(!root.search("car"));
    assert!(root.search("cart"));
    root.delete("cart");
    assert!(!root.search("cart"));
}

#[test]
fn delete_missing_word_changes_nothing() {
    let mut root = TrieNode::new('#');
    root.insert("dog");
    root.delete("do");
    root.delete("cat");
    assert!(root.search("dog"));
}

#[test]
fn delete_helper_flags_bare_node() {
    let mut root = TrieNode::new('#');
    root.insert("ab");
    assert!(TrieNode::delete_helper(&mut root, "ab", 0));
    assert!(!root.search("ab"));
    let mut other = TrieNode::new('#');
    other.insert("ab");
    other.insert("a");
    assert!(!TrieNode::delete_helper(&mut other, "ab", 0));
    assert!(other.search("a"));
}

#[test]
fn delete_helper_from_an_offset() {
    let mut root = TrieNode::new('#');
    root.insert("b");
    root.insert("ab");
    assert!(!TrieNode::delete_helper(&mut root, "ab", 1));
    assert!(!root.search("b"));
    assert!(root.search("ab"));
}

#[test]
fn empty_word_and_unicode() {
    let mut root = TrieNode::new('#');
    root.insert("");
    root.insert("héllo");
    assert!(root.search(""));
    assert!(root.search("héllo"));
    assert!(!root.search("hello"));
    root.delete("");
    assert!(!root.search(""));
    assert!(root.search("héllo"));
}
