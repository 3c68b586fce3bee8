use std::cell::RefCell;

use fr_trie::glob::acl::{Acl, AclTrie, Permissions};
use fr_trie::glob::GlobMatcher;
use fr_trie::key::TrieKey;
use fr_trie::node::RFRNode;
use fr_trie::trie::Trie;

#[test]
fn siblings_stay_sorted_after_insertions() {
    let mut trie: Trie<String, u32> = Trie::new();
    let keys = ["m", "b", "zz", "ba", "bb", "a", "mm", "b0", "z", "abc", "ab", "q"];
    for (i, k) in keys.iter().enumerate() {
        trie.insert(k.to_string(), i as u32);
    }
    assert_eq!(trie.len(), keys.len());
    let seen: RefCell<Vec<(usize, String)>> = RefCell::new(Vec::new());
    trie.foreach(|tup: (usize, &String, &Option<u32>)| {
        seen.borrow_mut().push((tup.0, tup.1.clone()));
    });
    let seen = seen.into_inner();
    // siblings: consecutive entries at the same depth with no shallower entry between
    for i in 0..seen.len() {
        for j in (i + 1)..seen.len() {
            if seen[j].0 < seen[i].0 {
                break;
            }
            if seen[j].0 == seen[i].0 {
                assert!(seen[i].1 < seen[j].1, "{:?} before {:?}", seen[i], seen[j]);
                assert_ne!(seen[i].1.chars().next(), seen[j].1.chars().next());
                break;
            }
        }
    }
    for (i, k) in keys.iter().enumerate() {
        assert_eq!(trie.get::<GlobMatcher>(&k.to_string()), Some(i as u32));
    }
}

#[test]
fn node_insert_returns_previous_values() {
    let mut root: RFRNode<String, u32> = RFRNode::new();
    assert_eq!(root.insert(TrieKey::new("abc".to_string()), Some(1)), None);
    assert_eq!(root.insert(TrieKey::new("abd".to_string()), Some(2)), None);
    assert_eq!(root.insert(TrieKey::new("ab".to_string()), Some(3)), None);
    assert_eq!(root.insert(TrieKey::new("abc".to_string()), Some(4)), Some(1));
    assert_eq!(root.insert(TrieKey::new("ab".to_string()), Some(5)), Some(3));
    assert_eq!(root.children.len(), 1);
    assert_eq!(root.children[0].node_key.key, "ab");
    assert_eq!(root.children[0].value, Some(5));
    assert_eq!(root.children[0].children.len(), 2);
    assert_eq!(root.get::<GlobMatcher>(&"abc".to_string()), Some(4));
    assert_eq!(root.get::<GlobMatcher>(&"abd".to_string()), Some(2));
    assert_eq!(root.iter().count(), 1);
}

#[test]
fn split_creates_shared_prefix_node() {
    let mut root: RFRNode<String, u32> = RFRNode::new();
    root.insert(TrieKey::new("team".to_string()), Some(1));
    root.insert(TrieKey::new("test".to_string()), Some(2));
    assert_eq!(root.children.len(), 1);
    let aux = &root.children[0];
    assert_eq!(aux.node_key.key, "te");
    assert_eq!(aux.value, None);
    assert_eq!(aux.children[0].node_key.key, "am");
    assert_eq!(aux.children[1].node_key.key, "st");
}

#[test]
fn node_constructors() {
    let aux: RFRNode<String, u32> = RFRNode::new_aux(TrieKey::new("k".to_string()));
    assert_eq!(aux.value, None);
    assert!(aux.children.is_empty());
    let mut leaf: RFRNode<String, u32> = RFRNode::new_leaf_with_prefix(TrieKey::new("key".to_string()), 7);
    assert_eq!(leaf.value, Some(7));
    leaf.strip_prefix(2);
    assert_eq!(leaf.node_key.key, "y");
    assert_eq!(leaf.value, Some(7));
    let root: RFRNode<String, u32> = RFRNode::new();
    assert!(root.node_key.is_empty());
}

#[test]
fn lookup_drains_with_merge() {
    let mut trie = AclTrie::new();
    trie.insert(Acl::new("x*"), Permissions::read());
    trie.insert(Acl::new("xy"), Permissions::delete());
    let root = {
        let mut r: RFRNode<Acl, Permissions> = RFRNode::new();
        r.insert(TrieKey::new(Acl::new("x*")), Some(Permissions::read()));
        r.insert(TrieKey::new(Acl::new("xy")), Some(Permissions::delete()));
        r
    };
    let mut it = root.lookup::<GlobMatcher>(&Acl::new("xy"));
    let first = it.next();
    assert_eq!(first, Some(Permissions::read()));
    assert_eq!(it.merge_rest(), Some(Permissions::delete()));
    assert_eq!(it.next(), None);
    assert_eq!(
        trie.get_merge::<GlobMatcher>(&Acl::new("xy")),
        Some(Permissions::read().union(Permissions::delete()))
    );
    assert_eq!(trie.get::<GlobMatcher>(&Acl::new("xz")), Some(Permissions::read()));
}

#[test]
fn beyond_stops_the_lookup() {
    let mut root: RFRNode<Acl, Permissions> = RFRNode::new();
    root.insert(TrieKey::new(Acl::new("m")), Some(Permissions::read()));
    root.insert(TrieKey::new(Acl::new("z*")), Some(Permissions::write()));
    let mut it = root.lookup::<GlobMatcher>(&Acl::new("c"));
    assert_eq!(it.next(), None);
    assert_eq!(it.next(), None);
    assert_eq!(it.merge_rest(), None);
}

#[test]
fn cloned_trie_answers_alike() {
    let mut trie = AclTrie::new();
    trie.insert(Acl::new("/a/*"), Permissions::read());
    trie.insert(Acl::new("/a/b"), Permissions::write());
    let copy = trie.clone();
    trie.insert(Acl::new("/a/c"), Permissions::create());
    assert_eq!(copy.len(), 2);
    assert_eq!(trie.len(), 3);
    assert_eq!(
        copy.get_merge::<GlobMatcher>(&Acl::new("/a/b")),
        Some(Permissions::read().union(Permissions::write()))
    );
    assert_eq!(copy.get::<GlobMatcher>(&Acl::new("/a/c")), Some(Permissions::read()));
    assert_eq!(
        trie.get_merge::<GlobMatcher>(&Acl::new("/a/c")),
        Some(Permissions::read().union(Permissions::create()))
    );
}
