use fr_trie::glob::GlobMatcher;
use fr_trie::matcher::{Event, MatchType, PushdownStateMachine, State, StateSequence};

#[test]
fn matcher_matcher_test() {
    let ev1 = Event::CharIn(12u8 as char);
    let ev2 = Event::EndOfStream;
    let ev3 = ev2;
    println!("states = {:?}, {:?} {:?}", ev1.clone(), ev2, ev3);
    assert!(matches!(ev1, Event::CharIn(c) if c as u32 == 12));
    assert!(matches!(ev3, Event::EndOfStream));
}

#[test]
fn mod_matcher_test() {
    let mut expected_token_sequence: Vec<StateSequence> = Vec::new();
    expected_token_sequence.push(StateSequence {
        match_type: MatchType::Literal,
        sequence: String::from("123").chars().collect(),
    });
    let mut matcher = GlobMatcher::new();
    matcher.step_in(&expected_token_sequence);
    let str: Vec<char> = String::from("12345").chars().collect();
    let mut input = str.iter();
    matcher.feed(Event::CharIn(*input.next().unwrap()));
    matcher.feed(Event::CharIn(*input.next().unwrap()));
    matcher.feed(Event::CharIn(*input.next().unwrap()));
    assert_eq!(matcher.state(), State::Expecting);

    matcher.feed(Event::EndOfStream);
    assert_eq!(matcher.state(), State::Accepted);
    assert!(!matcher.accepts_more());

    matcher.feed(Event::CharIn(*input.next().unwrap()));
    assert!(matches!(matcher.state(), State::Failure(_)));
    assert!(!matcher.accepts_more());
    assert!(matcher.is_sink());

    matcher.step_out();
    assert!(matches!(matcher.state(), State::Failure(_)));
    assert!(!matcher.accepts_more());

    matcher.feed(Event::CharIn(*input.next().unwrap()));

    println!("{:?}", matcher.clone());

    expected_token_sequence.push(StateSequence {
        match_type: MatchType::AnyOr,
        sequence: Vec::new(),
    });
    let str: Vec<char> = String::from("12345").chars().collect();
    let mut input = str.iter();
    matcher.step_out();
    matcher.step_in(&expected_token_sequence);
    matcher.feed(Event::CharIn(*input.next().unwrap()));
    assert_eq!(matcher.state(), State::Expecting);
    assert!(matcher.accepts_more());
}

#[test]
fn matcher_wildcard_tail_absorbs_everything() {
    let seq = vec![
        StateSequence { match_type: MatchType::Literal, sequence: vec!['a'] },
        StateSequence { match_type: MatchType::AnyOr, sequence: Vec::new() },
    ];
    let mut matcher = GlobMatcher::new();
    matcher.step_in(&seq);
    matcher.feed(Event::CharIn('a'));
    assert_eq!(matcher.state(), State::Accepting);
    matcher.feed(Event::CharIn('z'));
    matcher.feed(Event::CharIn('/'));
    assert_eq!(matcher.state(), State::Accepting);
    assert!(matcher.accepts_more());
    matcher.feed(Event::EndOfStream);
    assert_eq!(matcher.state(), State::Accepted);
}

#[test]
fn matcher_literal_ordering_gives_beyond_or_rejected() {
    let seq = vec![StateSequence { match_type: MatchType::Literal, sequence: vec!['m'] }];
    let mut low = GlobMatcher::new();
    low.step_in(&seq);
    low.feed(Event::CharIn('a'));
    assert_eq!(low.state(), State::Beyond);
    let mut high = GlobMatcher::new();
    high.step_in(&seq);
    high.feed(Event::CharIn('z'));
    assert_eq!(high.state(), State::Rejected);
}

#[test]
fn matcher_unfinished_literal_rejects_at_end() {
    let seq = vec![StateSequence { match_type: MatchType::Literal, sequence: vec!['a', 'b'] }];
    let mut m = GlobMatcher::new();
    m.step_in(&seq);
    m.feed(Event::CharIn('a'));
    m.feed(Event::EndOfStream);
    assert_eq!(m.state(), State::Rejected);
}

#[test]
fn matcher_step_in_extends_top_context() {
    let first = vec![StateSequence { match_type: MatchType::Literal, sequence: vec!['a'] }];
    let second = vec![StateSequence { match_type: MatchType::Literal, sequence: vec!['b'] }];
    let mut m = GlobMatcher::new();
    m.step_in(&first);
    m.feed(Event::CharIn('a'));
    assert!(!m.accepts_more());
    m.step_in(&second);
    assert!(m.accepts_more());
    m.feed(Event::CharIn('b'));
    m.feed(Event::EndOfStream);
    assert_eq!(m.state(), State::Accepted);
    m.step_out();
    assert_eq!(m.state(), State::Expecting);
    assert!(!m.accepts_more());
}

#[test]
fn matcher_without_context_fails() {
    let mut m = GlobMatcher::new();
    assert!(m.is_sink());
    m.feed(Event::EndOfStream);
    assert!(matches!(m.state(), State::Failure(_)));
    m.step_in(&Vec::new());
    assert!(matches!(m.state(), State::Failure(_)));
}
