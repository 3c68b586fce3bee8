use fr_trie::glob::acl::{Acl, AclTrie, Permissions};
use fr_trie::glob::GlobMatcher;
use fr_trie::trie::Trie;

#[test]
fn functional_test() {
    let mut trie = Trie::new();
    let a = String::from("a");
    let aa = String::from("aa");
    let aaaa = String::from("aaaa");
    let aabb = String::from("aabb");
    let aacc = String::from("aacc");
    let z = String::from("z");

    trie.insert(z.clone(), z.clone());
    trie.insert(aaaa.clone(), aaaa.clone());
    trie.insert(aabb.clone(), aabb.clone());
    trie.insert(aacc.clone(), aacc.clone());
    trie.insert(a.clone(), a.clone());

    trie.foreach(|tup: (usize, &String, &Option<String>)| {
        let indent = String::from_utf8(vec![b' '; tup.0 * 3]).unwrap();
        println!("{} {:?} = {:?}", indent, tup.1, tup.2);
    });

    trie.insert(aa.clone(), aa.clone());

    trie.foreach(|tup: (usize, &String, &Option<String>)| {
        let indent = String::from_utf8(vec![b' '; tup.0 * 3]).unwrap();
        println!("{} {:?} = {:?}", indent, tup.1, tup.2);
    });

    assert_eq!(trie.get::<GlobMatcher>(&a).unwrap(), a);
    assert_eq!(trie.get::<GlobMatcher>(&aaaa).unwrap(), aaaa);
    assert_eq!(trie.get::<GlobMatcher>(&aabb).unwrap(), aabb);
    assert_eq!(trie.get::<GlobMatcher>(&aacc).unwrap(), aacc);
    assert_eq!(trie.get::<GlobMatcher>(&z).unwrap(), z);

    let mut trie = AclTrie::new();

    trie.insert(Acl::new("de"), Permissions::read());
    trie.insert(Acl::new("df"), Permissions::read());

    trie.insert(Acl::new("a"), Permissions::read());
    trie.insert(Acl::new("z"), Permissions::read());
    trie.insert(Acl::new("b"), Permissions::write());
    let x = trie.get::<GlobMatcher>(&Acl::new("b"));
    assert_eq!(Permissions::write(), x.unwrap());

    trie.insert(Acl::new("b"), Permissions::owner());
    trie.insert(Acl::new("ab"), Permissions::read());
    trie.insert(Acl::new("aaa0a"), Permissions::read());
    trie.insert(Acl::new("aaa0b"), Permissions::read());
    trie.insert(Acl::new("ac"), Permissions::read());
    trie.insert(Acl::new("j1*"), Permissions::write());
    trie.insert(Acl::new("j0*t"), Permissions::all());
    let x = trie.get::<GlobMatcher>(&Acl::new("j01t"));
    assert_eq!(Permissions::all(), x.unwrap());
    let x = trie.get::<GlobMatcher>(&Acl::new("j1zz"));
    assert_eq!(Permissions::write(), x.unwrap());

    let x = trie.get::<GlobMatcher>(&Acl::new("b"));
    assert_eq!(Permissions::owner(), x.unwrap());
    trie.insert(Acl::new("be"), Permissions::read());
    trie.insert(Acl::new("bf"), Permissions::read());

    let x = trie.get::<GlobMatcher>(&Acl::new("b"));
    assert_eq!(Permissions::owner(), x.unwrap());

    trie.insert(Acl::new("ba"), Permissions::read());
    trie.insert(Acl::new("aaaab"), Permissions::write());

    trie.foreach(|tup: (usize, &Acl, &Option<Permissions>)| {
        let indent = String::from_utf8(vec![b' '; tup.0 * 3]).unwrap();
        println!("{} {} = {:?}", indent, tup.1.to_string(), tup.2);
    });

    let x = trie.get::<GlobMatcher>(&Acl::new("aaaab"));
    assert_eq!(Permissions::write(), x.unwrap());

    let x = trie.get::<GlobMatcher>(&Acl::new("aaaabb"));
    assert!(x.is_none());

    let mut trie = AclTrie::new();
    trie.insert(Acl::new("abc"), Permissions::write());
    trie.insert(Acl::new("a*"), Permissions::read());
    trie.insert(Acl::new("ax*"), Permissions::create());

    let x = trie.get_merge::<GlobMatcher>(&Acl::new("axy"));
    assert!(x.is_some());
    assert_eq!(Permissions::read().union(Permissions::create()), x.unwrap());

    let mut trie = AclTrie::new();
    trie.insert(Acl::new("/path/*"), Permissions::read());
    trie.insert(Acl::new("/path/to/resource"), Permissions::write());

    let result = trie.get_merge::<GlobMatcher>(&Acl::new("/path/to/anything"));
    if let Some(value) = result {
        if value == Permissions::read() {
            println!("Expecting /path/* wilcard key is accessed");
        }
    }

    let result = trie.get_merge::<GlobMatcher>(&Acl::new("/path/to/resource"));
    if let Some(value) = result {
        if value == Permissions::read().union(Permissions::write()) {
            println!("Expecting both /path/* wilcard key and /path/to/resource is accessed");
        }
    }

    trie.foreach(|tup: (usize, &Acl, &Option<Permissions>)| {
        let indent = String::from_utf8(vec![b' '; tup.0 * 3]).unwrap();
        println!("{} {} = {:?}", indent, tup.1.to_string(), tup.2);
    });
}

#[test]
fn bugfix_test() {
    let mut trie = AclTrie::new();
    trie.insert(Acl::new("/path/*"), Permissions::read());
    trie.insert(Acl::new("/path/to/resource"), Permissions::write());

    let x = trie.get_merge::<GlobMatcher>(&Acl::new("/path/other"));
    assert!(x.is_some());
    assert_eq!(Permissions::read(), x.unwrap());

    let x = trie.get_merge::<GlobMatcher>(&Acl::new("/path/to/resourc"));
    assert!(x.is_some());
    assert_eq!(Permissions::read(), x.unwrap());

    let x = trie.get_merge::<GlobMatcher>(&Acl::new("/path/to/resource"));
    assert!(x.is_some());
    assert_eq!(Permissions::read().union(Permissions::write()), x.unwrap());

    let mut trie = AclTrie::new();
    trie.insert(Acl::new("abc"), Permissions::write());
    trie.insert(Acl::new("a*"), Permissions::read());

    let x = trie.get::<GlobMatcher>(&Acl::new("ax"));
    assert!(x.is_some());
    assert_eq!(Permissions::read(), x.unwrap());

    let mut trie = AclTrie::new();
    trie.insert(Acl::new("abc"), Permissions::write());
    trie.insert(Acl::new("a*"), Permissions::read());

    let x = trie.get::<GlobMatcher>(&Acl::new("a/x"));
    assert!(x.is_some());
    assert_eq!(Permissions::read(), x.unwrap());
}

#[test]
fn scenario_literal_keys_and_size() {
    let mut trie: Trie<String, String> = Trie::new();
    for k in ["a", "aa", "aaaa", "aabb", "aacc", "z"] {
        assert!(trie.insert(k.to_string(), k.to_string()).is_none());
    }
    assert_eq!(trie.len(), 6);
    for k in ["a", "aa", "aaaa", "aabb", "aacc", "z"] {
        assert_eq!(trie.get::<GlobMatcher>(&k.to_string()), Some(k.to_string()));
    }
    assert_eq!(trie.get::<GlobMatcher>(&"aaa".to_string()), None);
    assert_eq!(trie.get::<GlobMatcher>(&"b".to_string()), None);
}

#[test]
fn replacement_keeps_size() {
    let mut trie: Trie<String, String> = Trie::new();
    assert_eq!(trie.insert("key".to_string(), "one".to_string()), None);
    assert_eq!(trie.insert("kez".to_string(), "other".to_string()), None);
    assert_eq!(trie.insert("key".to_string(), "two".to_string()), Some("one".to_string()));
    assert_eq!(trie.len(), 2);
    assert_eq!(trie.get::<GlobMatcher>(&"key".to_string()), Some("two".to_string()));
}

#[test]
fn prefix_key_inserted_after_longer_key_is_new() {
    let mut trie: Trie<String, String> = Trie::new();
    assert_eq!(trie.insert("abc".to_string(), "abc".to_string()), None);
    assert_eq!(trie.insert("ab".to_string(), "ab".to_string()), None);
    assert_eq!(trie.insert("abd".to_string(), "abd".to_string()), None);
    assert_eq!(trie.len(), 3);
    assert_eq!(trie.get::<GlobMatcher>(&"ab".to_string()), Some("ab".to_string()));
    assert_eq!(trie.get::<GlobMatcher>(&"abc".to_string()), Some("abc".to_string()));
    assert_eq!(trie.get::<GlobMatcher>(&"abd".to_string()), Some("abd".to_string()));
}

#[test]
fn scenario_wildcards() {
    let mut trie = AclTrie::new();
    trie.insert(Acl::new("j1*"), Permissions::write());
    trie.insert(Acl::new("j0*t"), Permissions::all());
    assert_eq!(trie.get::<GlobMatcher>(&Acl::new("j01t")), Some(Permissions::all()));
    assert_eq!(trie.get::<GlobMatcher>(&Acl::new("j1zz")), Some(Permissions::write()));
    assert_eq!(trie.get::<GlobMatcher>(&Acl::new("k")), None);
}

#[test]
fn merge_folds_all_matches() {
    let mut trie = AclTrie::new();
    trie.insert(Acl::new("/a/*"), Permissions::read());
    trie.insert(Acl::new("/a/b*"), Permissions::write());
    trie.insert(Acl::new("/a/bc"), Permissions::create());
    let all = Permissions::read().union(Permissions::write()).union(Permissions::create());
    assert_eq!(trie.get_merge::<GlobMatcher>(&Acl::new("/a/bc")), Some(all));
    assert_eq!(
        trie.get_merge::<GlobMatcher>(&Acl::new("/a/bd")),
        Some(Permissions::read().union(Permissions::write()))
    );
    assert_eq!(trie.get_merge::<GlobMatcher>(&Acl::new("/b")), None);

    let mut other = AclTrie::new();
    other.insert(Acl::new("/a/bc"), Permissions::create());
    other.insert(Acl::new("/a/b*"), Permissions::write());
    other.insert(Acl::new("/a/*"), Permissions::read());
    assert_eq!(other.get_merge::<GlobMatcher>(&Acl::new("/a/bc")), Some(all));
}

#[test]
fn iterator_ends_for_good() {
    let mut trie = AclTrie::new();
    trie.insert(Acl::new("b"), Permissions::read());
    trie.insert(Acl::new("c"), Permissions::write());
    let root = fr_trie::node::RFRNode::<Acl, Permissions>::new();
    let mut it = root.lookup::<GlobMatcher>(&Acl::new("a"));
    assert_eq!(it.next(), None);
    assert_eq!(it.next(), None);
    assert_eq!(trie.get::<GlobMatcher>(&Acl::new("a")), None);
    assert_eq!(trie.iter().count(), 2);
}
