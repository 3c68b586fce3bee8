use fr_trie::glob::acl::{Acl, AclTrie, Permissions};
use fr_trie::glob::GlobMatcher;
use fr_trie::key::{KeyPrefix, TrieKey};
use fr_trie::matcher::{Event, MatchType, PushdownStateMachine, State, StateSequence};

fn run(pattern: &str, token: &str) -> State {
    let acl = TrieKey::new(Acl::new(pattern));
    let mut machine = GlobMatcher::new();
    machine.step_in(&acl.seq);
    for ch in token.chars() {
        machine.feed(Event::CharIn(ch));
        if machine.is_sink() {
            break;
        }
    }
    machine.state()
}

fn segs(v: &[StateSequence]) -> Vec<(MatchType, String)> {
    v.iter().map(|s| (s.match_type, s.sequence.iter().collect())).collect()
}

#[test]
fn acl_trie_test() {
    {
        let token1 = String::from("f20000000001XXXG");
        let acl1 = TrieKey::new(Acl::new("f20*1*F"));
        println!("Processing {:?}", token1);
        let mut machine = GlobMatcher::new();

        machine.step_in(&acl1.seq);
        for ch in token1.chars() {
            machine.feed(Event::CharIn(ch));
            if machine.is_sink() {
                break;
            }
        }

        println!("Machine is at {:?} state", machine.state());
        assert_eq!(machine.state(), State::Accepting);

        let token2 = String::from("T");

        let acl2 = TrieKey::new(Acl::new("T"));
        machine.step_in(&acl2.seq);
        for ch in token2.chars() {
            machine.feed(Event::CharIn(ch));
            if machine.is_sink() {
                break;
            }
        }
        machine.feed(Event::EndOfStream);
        println!("Machine stopped at {:?} state", machine.state());
        assert_eq!(machine.state(), State::Rejected);
        machine.step_out();
    }

    {
        let acl = vec![TrieKey::new(Acl::new("f1*t")), TrieKey::new(Acl::new("t"))];
        let token = String::from("f11tt");
        println!("Processing {:?}", token);
        let mut machine = GlobMatcher::new();

        let mut acl_iterator = acl.iter();
        machine.step_in(&acl_iterator.next().unwrap().seq);
        for ch in token.chars() {
            if machine.is_sink() {
                break;
            }
            machine.feed(Event::CharIn(ch));
            if !machine.accepts_more() {
                match acl_iterator.next() {
                    None => break,
                    Some(acl) => machine.step_in(&acl.seq),
                }
            }
        }
        println!("Machine is at {:?} state", machine.state());

        machine.feed(Event::EndOfStream);
        println!("Machine stopped in {:?} state", machine.state());
        assert_eq!(machine.state(), State::Accepted);
    }

    let st = run("f1*t", "f01t");
    println!("Machine stopped in {:?} state", st);
    assert_eq!(st, State::Beyond);

    let st = run("f1*", "f01000000000");
    println!("Machine stopped in {:?} state", st);
    assert_eq!(st, State::Beyond);

    let st = run("f1*", "f10000000000");
    println!("Machine stopped in {:?} state", st);
    assert_eq!(st, State::Accepting);

    let st = run("f1*", "f20000000000");
    println!("Machine stopped in {:?} state", st);
    assert_eq!(st, State::Rejected);

    let st = run("f20*1*F", "f20000000001XXXF");
    println!("Machine stopped in {:?} state", st);
    assert_eq!(st, State::Accepting);
}

#[test]
fn glob_compilation_of_patterns() {
    let lit = MatchType::Literal;
    let any = MatchType::AnyOr;
    assert_eq!(
        segs(&Acl::new("f20*1*F").compiled()),
        vec![(lit, "f20".to_string()), (any, "1".to_string()), (any, "F".to_string())]
    );
    assert_eq!(segs(&Acl::new("a*").compiled()), vec![(lit, "a".to_string()), (any, String::new())]);
    assert_eq!(segs(&Acl::new("*").compiled()), vec![(any, String::new())]);
    assert_eq!(segs(&Acl::new("*ab").compiled()), vec![(any, "ab".to_string())]);
    assert_eq!(segs(&Acl::new("abc").compiled()), vec![(lit, "abc".to_string())]);
    assert!(Acl::new("").compiled().is_empty());
    assert!(TrieKey::new(Acl::new("")).is_empty());
}

#[test]
fn literal_key_compiles_to_one_segment() {
    let k = String::from("a*b");
    assert_eq!(segs(&k.compiled()), vec![(MatchType::Literal, "a*b".to_string())]);
    assert!(String::new().compiled().is_empty());
}

#[test]
fn key_slicing_by_characters() {
    let a = Acl::new("/päth/x");
    assert_eq!(a.key_len(), 7);
    assert_eq!(a.new_from_key_prefix(3).path, "/pä");
    assert_eq!(a.new_from_postfix(3).path, "th/x");
    let s = String::from("abcdef");
    assert_eq!(s.new_from_key_prefix(2), "ab");
    assert_eq!(s.new_from_postfix(2), "cdef");
    assert_eq!(s.key_chars(), vec!['a', 'b', 'c', 'd', 'e', 'f']);
    assert_eq!(String::empty(), "");
}

#[test]
fn lcp_of_keys() {
    let a = TrieKey::new(String::from("abcd"));
    let b = TrieKey::new(String::from("abx"));
    assert_eq!(a.lcp(&b), (2, true, false));
    assert_eq!(b.lcp(&a), (2, false, false));
    let c = TrieKey::new(String::from("ab"));
    assert_eq!(c.lcp(&a), (2, true, false));
    assert_eq!(a.lcp(&c), (2, true, false));
    assert_eq!(a.lcp(&TrieKey::new(String::from("abcd"))), (4, true, true));
    assert_eq!(a.lcp(&TrieKey::new(String::from("z"))), (0, true, false));
}

#[test]
fn permissions_union() {
    let rw = Permissions::read().union(Permissions::write());
    assert_eq!(rw.bits(), 3);
    assert!(rw.contains(Permissions::read()));
    assert!(!rw.contains(Permissions::create()));
    assert_eq!(Permissions::owner(), Permissions::all());
    assert_eq!(Permissions::empty().bits(), 0);
    assert_eq!(Permissions::delete().bits(), 8);
}

#[test]
fn acl_to_string() {
    assert_eq!(Acl::new("/a/*").to_string(), "/a/*");
    let t = AclTrie::new();
    assert_eq!(t.len(), 0);
}
