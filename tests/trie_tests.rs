use trie::{ElementaryTrie, Trie};

#[test]
fn route_element_insertion_and_retrieval() {
    let mut trie: ElementaryTrie<char, u8> = ElementaryTrie::new();
    assert_eq!(None, trie.insert(vec![], 100));
    assert_eq!(Some(&100), trie.get(vec![]));
}

#[test]
fn insertion_replaces_previous_value() {
    let mut trie: ElementaryTrie<char, u8> = ElementaryTrie::new();
    assert_eq!(None, trie.insert(vec![], 100));
    assert_eq!(Some(100), trie.insert(vec![], 101));
    assert_eq!(Some(&101), trie.get(vec![]));
}

#[test]
fn multiple_route_element_insertion_and_retrieval() {
    let mut trie: ElementaryTrie<char, u8> = ElementaryTrie::new();
    assert_eq!(None, trie.insert(vec![], 1));
    assert_eq!(None, trie.insert(vec!['a'], 2));
    assert_eq!(None, trie.insert(vec!['b'], 3));
    assert_eq!(Some(&1), trie.get(vec![]));
    assert_eq!(Some(&2), trie.get(vec!['a']));
    assert_eq!(Some(&3), trie.get(vec!['b']));
}

#[test]
fn child_route_element_insertion_and_retrieval() {
    let mut trie: ElementaryTrie<char, u8> = ElementaryTrie::new();
    assert_eq!(None, trie.insert(vec![], 1));
    assert_eq!(None, trie.insert(vec!['a'], 2));
    assert_eq!(None, trie.insert(vec!['a', 'b'], 3));
    assert_eq!(Some(&1), trie.get(vec![]));
    assert_eq!(Some(&2), trie.get(vec!['a']));
    assert_eq!(Some(&3), trie.get(vec!['a', 'b']));
}

#[test]
fn orphan_element_insertion_and_retrieval() {
    let mut trie: ElementaryTrie<char, u8> = ElementaryTrie::new();
    assert_eq!(None, trie.insert(vec![], 1));
    assert_eq!(None, trie.insert(vec!['a', 'b'], 3));
    assert_eq!(Some(&1), trie.get(vec![]));
    assert_eq!(None, trie.get(vec!['a']));
    assert_eq!(Some(&3), trie.get(vec!['a', 'b']));
}
