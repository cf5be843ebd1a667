use trie::{ElementaryTrie, Trie};

#[test]
fn new_trie_is_empty() {
    let trie: ElementaryTrie<char, u8> = ElementaryTrie::new();
    assert_eq!(None, trie.get(vec![]));
    assert_eq!(None, trie.get(vec!['a']));
}

#[test]
fn overwrite_returns_previous_and_keeps_newest() {
    let mut trie: ElementaryTrie<char, u32> = ElementaryTrie::new();
    assert_eq!(None, trie.insert(vec!['x', 'y'], 7));
    assert_eq!(Some(7), trie.insert(vec!['x', 'y'], 8));
    assert_eq!(Some(8), trie.insert(vec!['x', 'y'], 9));
    assert_eq!(Some(&9), trie.get(vec!['x', 'y']));
}

#[test]
fn unrelated_and_prefix_keys_stay_absent() {
    let mut trie: ElementaryTrie<char, u8> = ElementaryTrie::new();
    trie.insert(vec!['a', 'b', 'c'], 1);
    assert_eq!(None, trie.get(vec![]));
    assert_eq!(None, trie.get(vec!['a']));
    assert_eq!(None, trie.get(vec!['a', 'b']));
    assert_eq!(None, trie.get(vec!['a', 'b', 'c', 'd']));
    assert_eq!(None, trie.get(vec!['b']));
    assert_eq!(None, trie.get(vec!['a', 'c']));
    assert_eq!(Some(&1), trie.get(vec!['a', 'b', 'c']));
}

#[test]
fn insertion_keeps_other_keys() {
    let mut trie: ElementaryTrie<char, u8> = ElementaryTrie::new();
    trie.insert(vec!['a'], 1);
    trie.insert(vec!['a', 'b'], 2);
    trie.insert(vec!['b'], 3);
    assert_eq!(Some(1), trie.insert(vec!['a'], 10));
    assert_eq!(Some(&10), trie.get(vec!['a']));
    assert_eq!(Some(&2), trie.get(vec!['a', 'b']));
    assert_eq!(Some(&3), trie.get(vec!['b']));
}

#[test]
fn empty_key_is_independent() {
    let mut trie: ElementaryTrie<char, u8> = ElementaryTrie::new();
    trie.insert(vec!['a'], 5);
    assert_eq!(None, trie.insert(vec![], 6));
    assert_eq!(Some(&6), trie.get(vec![]));
    assert_eq!(Some(&5), trie.get(vec!['a']));
}

#[test]
fn insertion_order_does_not_matter() {
    let pairs: Vec<(Vec<char>, u8)> = vec![
        (vec![], 1),
        (vec!['a'], 2),
        (vec!['a', 'b'], 3),
        (vec!['b'], 4),
    ];
    let mut forward: ElementaryTrie<char, u8> = ElementaryTrie::new();
    for (k, v) in pairs.iter() {
        forward.insert(k.clone(), *v);
    }
    let mut backward: ElementaryTrie<char, u8> = ElementaryTrie::new();
    for (k, v) in pairs.iter().rev() {
        backward.insert(k.clone(), *v);
    }
    for (k, v) in pairs.iter() {
        assert_eq!(Some(v), forward.get(k.clone()));
        assert_eq!(Some(v), backward.get(k.clone()));
    }
    assert_eq!(None, forward.get(vec!['b', 'a']));
    assert_eq!(None, backward.get(vec!['b', 'a']));
}

#[test]
fn last_write_wins_for_repeated_key() {
    let mut trie: ElementaryTrie<u32, &str> = ElementaryTrie::new();
    trie.insert(vec![1, 2], "first");
    trie.insert(vec![3], "other");
    trie.insert(vec![1, 2], "second");
    assert_eq!(Some(&"second"), trie.get(vec![1, 2]));
    assert_eq!(Some(&"other"), trie.get(vec![3]));
}

#[test]
fn long_key_round_trip() {
    let mut trie: ElementaryTrie<u32, u32> = ElementaryTrie::new();
    let key: Vec<u32> = (0..1000).collect();
    assert_eq!(None, trie.insert(key.clone(), 42));
    assert_eq!(Some(&42), trie.get(key.clone()));
    assert_eq!(None, trie.get(key[..999].to_vec()));
}
