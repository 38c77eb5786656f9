use byte_trie::common_prefix;
use byte_trie::SearchKey;
use byte_trie::TrieNode;

#[test]
fn test_prefix_len_counts_prefixed_keys() {
    let mut trie = TrieNode::new();
    trie.insert(vec![1, 2, 3], 1);
    trie.insert(vec![1, 2, 4], 2);
    trie.insert(vec![1, 2], 3);
    trie.insert(vec![2, 9], 4);

    // the empty prefix counts every stored key
    assert_eq!(4, trie.prefix_len(&[]));
    assert_eq!(trie.len(), trie.prefix_len(&[]));
    // a prefix ending at a node counts its whole subtree
    assert_eq!(3, trie.prefix_len(&[1, 2]));
    // a prefix exhausted in the middle of a segment still counts the
    // subtree below that segment
    assert_eq!(3, trie.prefix_len(&[1]));
    assert_eq!(1, trie.prefix_len(&[2]));
    // an exactly matching key counts itself
    assert_eq!(1, trie.prefix_len(&[1, 2, 3]));
    // a prefix that needs an absent byte counts nothing
    assert_eq!(0, trie.prefix_len(&[3]));
    assert_eq!(0, trie.prefix_len(&[1, 3]));
    // a prefix longer than every stored key counts nothing
    assert_eq!(0, trie.prefix_len(&[1, 2, 3, 4]));
    // a prefix diverging inside a segment with bytes left over counts
    // nothing
    assert_eq!(0, trie.prefix_len(&[2, 8]));
}

#[test]
fn test_prefix_len_counts_internal_structure() {
    let mut trie = TrieNode::new();
    trie.insert(vec![1, 2, 3], 1);
    trie.insert(vec![1, 2, 4], 2);
    // no value is stored at [1, 2], yet the prefix counts its descendants
    assert_eq!(None, trie.get(&[1, 2]));
    assert_eq!(2, trie.prefix_len(&[1, 2]));
}

#[test]
fn test_common_prefix() {
    assert_eq!(0, common_prefix(&[], &[]));
    assert_eq!(0, common_prefix(&[1], &[2]));
    assert_eq!(2, common_prefix(&[1, 2, 3], &[1, 2, 4]));
    assert_eq!(3, common_prefix(&[1, 2, 3], &[1, 2, 3]));
    assert_eq!(2, common_prefix(&[1, 2], &[1, 2, 9]));
    assert_eq!(1, common_prefix(&[5, 7], &[5]));
}

#[test]
fn test_search_key_cursor() {
    let mut k = SearchKey::new(vec![10, 20, 30]);
    assert!(!k.is_empty());
    assert_eq!(10, k.first());
    k.consume(1);
    assert_eq!(20, k.first());
    k.consume(2);
    assert!(k.is_empty());

    let bytes = [7u8, 8];
    let mut b = SearchKey::borrow(&bytes);
    assert_eq!(7, b.first());
    b.consume(2);
    assert!(b.is_empty());

    let e = SearchKey::new(vec![]);
    assert!(e.is_empty());
}
