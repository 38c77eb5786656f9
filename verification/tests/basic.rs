use byte_trie::TrieNode;

#[test]
fn test_basic_ops() {
    let cases = vec![
        (vec![1, 2, 3], 2, None, 1),
        (vec![1, 2], 1, None, 2),
        (vec![1, 2, 3], 3, Some(2), 2),
        (vec![1, 2, 3, 5], 4, None, 3),
        (vec![1, 2, 5, 3], 3, None, 4),
    ];

    let mut trie = TrieNode::new();
    assert_eq!(0, trie.len());
    assert!(trie.is_empty());
    for (key, value, returned, len) in cases {
        assert_eq!(returned.as_ref(), trie.get(&key));
        assert_eq!(returned, trie.insert(key.clone(), value.clone()));
        assert_eq!(len, trie.len());
        assert_eq!(Some(&value), trie.get(&key));
    }

    let cases = vec![
        (vec![1, 2, 3], Some(3), 3),
        (vec![1, 2], Some(1), 2),
        (vec![1, 2, 3], None, 2),
        (vec![1, 2, 3, 5], Some(4), 1),
        (vec![1, 2, 5, 3], Some(3), 0),
    ];

    assert_eq!(4, trie.len());
    for (key, returned, len) in cases {
        assert_eq!(returned, trie.remove(&key));
        assert_eq!(len, trie.len());
    }
}

#[test]
fn test_scenario_ends_structurally_empty() {
    let mut trie = TrieNode::new();
    assert_eq!(None, trie.insert(vec![1, 2, 3], 2));
    assert_eq!(None, trie.insert(vec![1, 2], 1));
    assert_eq!(Some(2), trie.insert(vec![1, 2, 3], 3));
    assert_eq!(2, trie.len());
    assert_eq!(None, trie.insert(vec![1, 2, 3, 5], 4));
    assert_eq!(None, trie.insert(vec![1, 2, 5, 3], 3));
    assert_eq!(4, trie.len());

    assert_eq!(Some(3), trie.remove(&[1, 2, 3]));
    assert_eq!(3, trie.len());
    assert_eq!(Some(1), trie.remove(&[1, 2]));
    assert_eq!(2, trie.len());
    assert_eq!(None, trie.remove(&[1, 2, 3]));
    assert_eq!(2, trie.len());
    assert_eq!(Some(4), trie.remove(&[1, 2, 3, 5]));
    assert_eq!(1, trie.len());
    assert_eq!(Some(3), trie.remove(&[1, 2, 5, 3]));
    assert_eq!(0, trie.len());
    assert!(trie.is_empty());
}

#[test]
fn test_empty_key_is_a_key() {
    let mut trie = TrieNode::new();
    assert_eq!(None, trie.get(&[]));
    assert_eq!(None, trie.insert(vec![], 7));
    assert_eq!(Some(&7), trie.get(&[]));
    assert_eq!(1, trie.len());
    assert!(!trie.is_empty());
    assert_eq!(Some(7), trie.remove(&[]));
    assert!(trie.is_empty());
}

#[test]
fn test_overwrite_returns_prior_value() {
    let mut trie = TrieNode::new();
    assert_eq!(None, trie.insert(vec![9, 9], "a"));
    assert_eq!(Some("a"), trie.insert(vec![9, 9], "b"));
    assert_eq!(Some("b"), trie.insert(vec![9, 9], "c"));
    assert_eq!(1, trie.len());
    assert_eq!(Some(&"c"), trie.get(&[9, 9]));
}

#[test]
fn test_removal_leaves_siblings_untouched() {
    let mut trie = TrieNode::new();
    trie.insert(vec![1, 2, 3], 30);
    trie.insert(vec![1, 2, 4], 40);
    trie.insert(vec![1, 2], 20);
    trie.insert(vec![7], 70);
    assert_eq!(4, trie.len());

    assert_eq!(Some(30), trie.remove(&[1, 2, 3]));
    assert_eq!(Some(&40), trie.get(&[1, 2, 4]));
    assert_eq!(Some(&20), trie.get(&[1, 2]));
    assert_eq!(Some(&70), trie.get(&[7]));
    assert_eq!(None, trie.get(&[1, 2, 3]));
    assert_eq!(3, trie.len());
}

#[test]
fn test_get_mut_updates_in_place() {
    let mut trie = TrieNode::new();
    trie.insert(vec![1, 2, 3], 5);
    trie.insert(vec![1, 9], 6);
    assert!(trie.get_mut(&[1, 2]).is_none());
    match trie.get_mut(&[1, 2, 3]) {
        Some(v) => *v *= 10,
        None => panic!("key should be present"),
    }
    assert_eq!(Some(&50), trie.get(&[1, 2, 3]));
    assert_eq!(Some(&6), trie.get(&[1, 9]));
}

#[test]
fn test_get_on_partial_paths() {
    let mut trie = TrieNode::new();
    trie.insert(vec![1, 2, 3, 4], 1);
    // internal prefixes hold no value of their own
    assert_eq!(None, trie.get(&[1]));
    assert_eq!(None, trie.get(&[1, 2]));
    assert_eq!(None, trie.get(&[1, 2, 3]));
    assert_eq!(None, trie.get(&[1, 2, 3, 4, 5]));
    assert_eq!(Some(&1), trie.get(&[1, 2, 3, 4]));
}
