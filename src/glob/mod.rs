//! A small glob matcher: literal runs and `*` wildcard runs.
pub mod acl;

use vstd::prelude::*;
use crate::matcher::{
    Ahead, Event, InstanceModel, MatchType, PushdownStateMachine, State, StateSequence,
    advance_spec, extended_model, feed_spec, fresh_model, is_sink_state, lemma_segs_view_push,
    look_ahead_spec, opens_wildcard, seg_view, segs_view,
};

verus! {

/// The transitions of a context on the characters of `input`, one at a time;
/// `None` where one of them is illegal.
pub open spec fn run_chars(
    st: State,
    toks: Seq<(MatchType, Seq<char>)>,
    gi: int,
    ci: int,
    input: Seq<char>,
) -> Option<(State, int, int)>
    decreases input.len(),
{
    if input.len() == 0 {
        Some((st, gi, ci))
    } else {
        match feed_spec(st, toks, gi, ci, Event::CharIn(input[0])) {
            None => None,
            Some(t) => run_chars(t.0, toks, t.1, t.2, input.drop_first()),
        }
    }
}

proof fn lemma_literal_run_from(s: Seq<char>, j: int)
    requires
        0 <= j < s.len(),
    ensures
        run_chars(State::Expecting, seq![(MatchType::Literal, s)], 0, j, s.subrange(j, s.len() as int))
            == Some((State::Expecting, 1int, 0int)),
    decreases s.len() - j,
{
    let toks = seq![(MatchType::Literal, s)];
    let input = s.subrange(j, s.len() as int);
    assert(input[0] == s[j]);
    assert(look_ahead_spec(toks, 0, j) == Some(Ahead::Exactly(s[j])));
    if j + 1 < s.len() {
        assert(input.drop_first() =~= s.subrange(j + 1, s.len() as int));
        lemma_literal_run_from(s, j + 1);
    } else {
        assert(input.drop_first() =~= Seq::<char>::empty());
        assert(look_ahead_spec(toks, 1, 0) is None);
    }
}

/// A context over the compilation of a non-empty key without wildcards,
/// started fresh, accepts that key: its characters leave it waiting at the
/// end of the pattern, and the end of input then accepts.
pub proof fn lemma_literal_key_accepted(s: Seq<char>)
    requires
        s.len() > 0,
    ensures
        fresh_model(seq![(MatchType::Literal, s)]).state == State::Expecting,
        run_chars(State::Expecting, seq![(MatchType::Literal, s)], 0, 0, s) == Some(
            (State::Expecting, 1int, 0int),
        ),
        feed_spec(State::Expecting, seq![(MatchType::Literal, s)], 1, 0, Event::EndOfStream) == Some(
            (State::Accepted, 1int, 0int),
        ),
{
    lemma_literal_run_from(s, 0);
    assert(s.subrange(0, s.len() as int) =~= s);
}

/// One matching context: the segments to match, the state, and the position.
#[derive(Debug, Clone)]
pub struct MachineInstance {
    tokens: Vec<StateSequence>,
    state: State,
    glob_idx: usize,
    glob_char_idx: usize,
}

impl MachineInstance {
    pub closed spec fn model(&self) -> InstanceModel {
        InstanceModel {
            tokens: segs_view(self.tokens@),
            state: self.state,
            gi: self.glob_idx as int,
            ci: self.glob_char_idx as int,
        }
    }

    /// The position lies within the segments, or exactly past them.
    pub closed spec fn wf(&self) -> bool {
        self.model().wf()
    }

    fn feed(&mut self, ev: Event)
        requires
            old(self).wf(),
        ensures
            final(self).wf(),
            final(self).model().tokens == old(self).model().tokens,
            match feed_spec(
                old(self).state,
                old(self).model().tokens,
                old(self).model().gi,
                old(self).model().ci,
                ev,
            ) {
                Some(t) => final(self).state == t.0 && final(self).model().gi == t.1
                    && final(self).model().ci == t.2,
                None => final(self).state is Failure && final(self).model().gi == old(self).model().gi
                    && final(self).model().ci == old(self).model().ci,
            },
    {
        let sink = match self.state {
            State::Accepting => false,
            State::Expecting => false,
            _ => true,
        };
        if sink {
            self.state = State::Failure(String::from_str("wrong state and event combination"));
            return;
        }
        match ev {
            Event::EndOfStream => {
                match self.look_ahead() {
                    None => {
                        self.state = State::Accepted;
                    },
                    Some(Ahead::Any) => {
                        self.state = State::Accepted;
                    },
                    Some(_) => {
                        self.state = State::Rejected;
                    },
                }
            },
            Event::CharIn(ch) => {
                match self.look_ahead() {
                    None => {
                        self.state = State::Beyond;
                    },
                    Some(Ahead::Exactly(current_char)) => {
                        if current_char == ch {
                            self.advance();
                            let opens = match self.look_ahead() {
                                Some(Ahead::Exactly(_)) => false,
                                None => false,
                                _ => true,
                            };
                            if opens {
                                self.state = State::Accepting;
                            } else {
                                self.state = State::Expecting;
                            }
                        } else if ch < current_char {
                            self.state = State::Beyond;
                        } else {
                            self.state = State::Rejected;
                        }
                    },
                    Some(Ahead::AnyOr(current_char)) => {
                        if current_char == ch {
                            self.advance();
                            self.state = State::Accepting;
                        }
                    },
                    Some(Ahead::Any) => {
                        self.state = State::Accepting;
                    },
                }
            },
        }
    }

    fn look_ahead(&self) -> (r: Option<Ahead>)
        requires
            self.wf(),
        ensures
            r == look_ahead_spec(self.model().tokens, self.model().gi, self.model().ci),
    {
        if self.glob_idx >= self.tokens.len() {
            return None;
        }
        let current_glob = &self.tokens[self.glob_idx];
        proof {
            assert(segs_view(self.tokens@)[self.glob_idx as int] == seg_view(*current_glob));
        }
        if self.glob_char_idx < current_glob.sequence.len() {
            let c = current_glob.sequence[self.glob_char_idx];
            match current_glob.match_type {
                MatchType::Literal => Some(Ahead::Exactly(c)),
                MatchType::AnyOr => Some(Ahead::AnyOr(c)),
            }
        } else {
            match current_glob.match_type {
                MatchType::Literal => None,
                MatchType::AnyOr => Some(Ahead::Any),
            }
        }
    }

    fn advance(&mut self)
        requires
            old(self).wf(),
            old(self).glob_idx < old(self).tokens@.len(),
            old(self).glob_char_idx < old(self).model().tokens[old(self).glob_idx as int].1.len(),
        ensures
            final(self).wf(),
            final(self).tokens == old(self).tokens,
            final(self).state == old(self).state,
            (final(self).model().gi, final(self).model().ci) == advance_spec(
                old(self).model().tokens,
                old(self).model().gi,
                old(self).model().ci,
            ),
    {
        let n_tokens = self.tokens.len();
        let seq_len = self.tokens[self.glob_idx].sequence.len();
        proof {
            assert(segs_view(self.tokens@)[self.glob_idx as int] == seg_view(
                self.tokens@[self.glob_idx as int],
            ));
        }
        if self.glob_char_idx + 1 < seq_len {
            self.glob_char_idx = self.glob_char_idx + 1;
        } else if self.glob_idx + 1 < n_tokens {
            self.glob_char_idx = 0;
            self.glob_idx = self.glob_idx + 1;
        } else {
            self.glob_char_idx = 0;
            self.glob_idx = n_tokens;
        }
    }

    /// The position has not passed the last segment, so more input can be matched.
    fn is_expecting(&self) -> (r: bool)
        ensures
            r == (self.glob_idx < self.tokens@.len()),
    {
        !self.at_end()
    }

    /// The position is past the last segment.
    fn at_end(&self) -> (r: bool)
        ensures
            r == (self.glob_idx >= self.tokens@.len()),
    {
        self.glob_idx >= self.tokens.len()
    }
}

/// A glob matcher: a stack of matching contexts, one per level of descent.
#[derive(Debug, Clone)]
pub struct GlobMatcher {
    stack: Vec<MachineInstance>,
}

impl PushdownStateMachine for GlobMatcher {
    closed spec fn contexts(&self) -> Seq<InstanceModel> {
        self.stack@.map_values(|m: MachineInstance| m.model())
    }

    closed spec fn inv(&self) -> bool {
        forall|i: int| 0 <= i < self.stack@.len() ==> #[trigger] self.stack@[i].wf()
    }

    fn new() -> (r: Self) {
        GlobMatcher { stack: Vec::new() }
    }

    fn step_in(&mut self, sequence: &Vec<StateSequence>) {
        let n = self.stack.len();
        let mut tokens: Vec<StateSequence> = Vec::new();
        let mut state: State;
        let mut glob_idx: usize = 0;
        let mut glob_char_idx: usize = 0;
        if n == 0 {
            state = if sequence.len() == 0 {
                State::Failure(String::from_str("no pattern provided"))
            } else {
                match sequence[0].match_type {
                    MatchType::Literal => State::Expecting,
                    MatchType::AnyOr => State::Accepting,
                }
            };
        } else {
            let top = &self.stack[n - 1];
            let mut i: usize = 0;
            while i < top.tokens.len()
                invariant
                    i <= top.tokens@.len(),
                    segs_view(tokens@) == segs_view(top.tokens@.subrange(0, i as int)),
                decreases top.tokens@.len() - i,
            {
                let d = top.tokens[i].duplicate();
                proof {
                    lemma_segs_view_push(tokens@, d);
                    lemma_segs_view_push(top.tokens@.subrange(0, i as int), top.tokens@[i as int]);
                    assert(top.tokens@.subrange(0, i + 1) =~= top.tokens@.subrange(0, i as int).push(
                        top.tokens@[i as int],
                    ));
                }
                tokens.push(d);
                i = i + 1;
            }
            proof {
                assert(top.tokens@.subrange(0, i as int) =~= top.tokens@);
            }
            proof {
                assert(top.wf());
            }
            state = top.state.duplicate();
            glob_idx = top.glob_idx;
            glob_char_idx = top.glob_char_idx;
        }
        let ghost base = segs_view(tokens@);
        let mut j: usize = 0;
        while j < sequence.len()
            invariant
                j <= sequence@.len(),
                segs_view(tokens@) == base + segs_view(sequence@.subrange(0, j as int)),
            decreases sequence@.len() - j,
        {
            let d = sequence[j].duplicate();
            proof {
                lemma_segs_view_push(tokens@, d);
                lemma_segs_view_push(sequence@.subrange(0, j as int), sequence@[j as int]);
                assert(sequence@.subrange(0, j + 1) =~= sequence@.subrange(0, j as int).push(
                    sequence@[j as int],
                ));
                assert(base + segs_view(sequence@.subrange(0, j + 1)) =~= (base + segs_view(
                    sequence@.subrange(0, j as int),
                )).push(seg_view(d)));
            }
            tokens.push(d);
            j = j + 1;
        }
        proof {
            assert(sequence@.subrange(0, j as int) =~= sequence@);
        }
        let instance = MachineInstance { tokens, state, glob_idx, glob_char_idx };
        proof {
            if n > 0 {
                let top = old(self).stack@[n - 1];
                assert(top.wf());
                assert(instance.model().tokens =~= top.model().tokens + segs_view(sequence@));
                if top.model().gi < top.model().tokens.len() {
                    assert(instance.model().tokens[top.model().gi] == top.model().tokens[top.model().gi]);
                }
            }
            assert(instance.wf());
        }
        self.stack.push(instance);
        proof {
            assert forall|i: int| 0 <= i < self.stack@.len() implies #[trigger] self.stack@[i].wf() by {
                if i < n {
                    assert(self.stack@[i] == old(self).stack@[i]);
                }
            }
        }
        proof {
            assert(self.contexts().drop_last() =~= old(self).contexts());
        }
    }

    fn step_out(&mut self) {
        let _ = self.stack.pop();
        proof {
            assert(self.contexts() =~= if old(self).contexts().len() == 0 {
                old(self).contexts()
            } else {
                old(self).contexts().drop_last()
            });
        }
    }

    fn accepts_more(&self) -> (r: bool) {
        let n = self.stack.len();
        if n == 0 {
            false
        } else {
            self.stack[n - 1].is_expecting()
        }
    }

    fn feed(&mut self, ev: Event) {
        let n = self.stack.len();
        if n > 0 {
            let mut top = self.stack.pop().unwrap();
            top.feed(ev);
            self.stack.push(top);
            proof {
                assert(self.contexts().subrange(0, n - 1) =~= old(self).contexts().subrange(0, n - 1));
            }
        }
    }

    fn state(&self) -> (r: State) {
        let n = self.stack.len();
        if n == 0 {
            State::Failure(String::from_str("matcher has no active context"))
        } else {
            self.stack[n - 1].state.duplicate()
        }
    }

    fn is_sink(&self) -> (r: bool) {
        let n = self.stack.len();
        if n == 0 {
            true
        } else {
            match self.stack[n - 1].state {
                State::Accepting => false,
                State::Expecting => false,
                _ => true,
            }
        }
    }
}

} // verus!
