use byte_trie::Entry;
use byte_trie::TrieNode;

#[test]
fn test_entry_classifies_keys() {
    let mut trie = TrieNode::new();
    trie.insert(vec![1, 2], 20);
    assert!(matches!(trie.entry(vec![1, 2]), Entry::Occupied(_)));
    assert!(matches!(trie.entry(vec![1]), Entry::Vacant(_)));
    assert!(matches!(trie.entry(vec![1, 2, 3]), Entry::Vacant(_)));
    assert_eq!(&[1u8, 2][..], trie.entry(vec![1, 2]).key());
}

#[test]
fn test_or_insert_absent_key_inserts() {
    let mut trie = TrieNode::new();
    let e = trie.entry(vec![5, 6]);
    let v = e.or_insert(&mut trie, 11);
    assert_eq!(11, *v);
    assert_eq!(Some(&11), trie.get(&[5, 6]));
    assert_eq!(1, trie.len());
}

#[test]
fn test_or_insert_present_key_is_untouched() {
    let mut trie = TrieNode::new();
    trie.insert(vec![5, 6], 11);
    let e = trie.entry(vec![5, 6]);
    let v = e.or_insert(&mut trie, 99);
    assert_eq!(11, *v);
    *v += 1;
    assert_eq!(Some(&12), trie.get(&[5, 6]));
    assert_eq!(1, trie.len());
}

#[test]
fn test_or_insert_with() {
    let mut trie = TrieNode::new();
    let e = trie.entry(vec![8]);
    let v = e.or_insert_with(&mut trie, || 5 + 5);
    assert_eq!(10, *v);
    let e = trie.entry(vec![8]);
    let v = e.or_insert_with(&mut trie, || 77);
    assert_eq!(10, *v);
}

#[test]
fn test_vacant_entry() {
    let mut trie = TrieNode::new();
    trie.insert(vec![1, 2, 3], 1);
    match trie.entry(vec![1, 2]) {
        Entry::Vacant(v) => {
            assert_eq!(&[1u8, 2][..], v.key());
            // the vacant key is a prefix of one stored key
            assert_eq!(1, v.prefix_len(&trie));
            let stored = v.insert(&mut trie, 9);
            assert_eq!(9, *stored);
            *stored += 1;
        }
        Entry::Occupied(_) => panic!("key should be vacant"),
    }
    assert_eq!(Some(&10), trie.get(&[1, 2]));

    match trie.entry(vec![4, 4]) {
        Entry::Vacant(v) => {
            assert_eq!(vec![4u8, 4], v.into_key());
        }
        Entry::Occupied(_) => panic!("key should be vacant"),
    }
}

#[test]
fn test_occupied_entry() {
    let mut trie = TrieNode::new();
    trie.insert(vec![1, 2, 3], 1);
    trie.insert(vec![1, 2], 2);
    match trie.entry(vec![1, 2]) {
        Entry::Occupied(o) => {
            assert_eq!(&[1u8, 2][..], o.key());
            assert_eq!(&2, o.get(&trie));
            assert_eq!(2, o.insert(&mut trie, 5));
            assert_eq!(&5, o.get(&trie));
            *o.get_mut(&mut trie) += 1;
            assert_eq!(&6, o.get(&trie));
            assert_eq!(6, o.remove(&mut trie));
        }
        Entry::Vacant(_) => panic!("key should be occupied"),
    }
    assert_eq!(None, trie.get(&[1, 2]));
    assert_eq!(Some(&1), trie.get(&[1, 2, 3]));
    assert_eq!(1, trie.len());
}

#[test]
fn test_into_mut_yields_a_lasting_reference() {
    let mut trie = TrieNode::new();
    trie.insert(vec![3, 1], 100);
    match trie.entry(vec![3, 1]) {
        Entry::Occupied(o) => {
            let v = o.into_mut(&mut trie);
            *v = 200;
        }
        Entry::Vacant(_) => panic!("key should be occupied"),
    }
    assert_eq!(Some(&200), trie.get(&[3, 1]));
}
