//! Compiled match segments, matcher states and the pushdown matcher capability.
use vstd::prelude::*;

verus! {

/// How a compiled segment matches its characters.
#[derive(Debug, Clone, Copy, PartialEq, Eq, Structural)]
pub enum MatchType {
    /// The characters must appear exactly, in order.
    Literal,
    /// A run of arbitrary characters, resumed by the segment's characters.
    AnyOr,
}

/// The state of one matching context.
#[derive(Debug, Clone, PartialEq)]
pub enum State {
    Accepting,
    Expecting,
    Accepted,
    Rejected,
    Beyond,
    Failure(String),
}

/// An input event for a matcher.
#[derive(Debug, Clone, Copy)]
pub enum Event {
    CharIn(char),
    EndOfStream,
}

/// One compiled segment of a key.
#[derive(Debug, Clone, PartialEq)]
pub struct StateSequence {
    pub match_type: MatchType,
    pub sequence: Vec<char>,
}

/// The mathematical value of a segment: its kind and its characters.
pub open spec fn seg_view(s: StateSequence) -> (MatchType, Seq<char>) {
    (s.match_type, s.sequence@)
}

/// The mathematical value of a segment list.
pub open spec fn segs_view(v: Seq<StateSequence>) -> Seq<(MatchType, Seq<char>)> {
    v.map_values(|s: StateSequence| seg_view(s))
}

/// A state in which the matcher takes no further events.
pub open spec fn is_sink_state(s: State) -> bool {
    !(s is Accepting || s is Expecting)
}

/// Appending a segment appends its value.
pub proof fn lemma_segs_view_push(v: Seq<StateSequence>, x: StateSequence)
    ensures
        segs_view(v.push(x)) == segs_view(v).push(seg_view(x)),
{
    assert(segs_view(v.push(x)) =~= segs_view(v).push(seg_view(x)));
}

impl State {
    /// A copy of the state.
    pub fn duplicate(&self) -> (r: State)
        ensures
            r == *self,
    {
        match self {
            State::Accepting => State::Accepting,
            State::Expecting => State::Expecting,
            State::Accepted => State::Accepted,
            State::Rejected => State::Rejected,
            State::Beyond => State::Beyond,
            State::Failure(msg) => State::Failure(msg.clone()),
        }
    }
}

impl StateSequence {
    /// A copy of the segment with the same kind and characters.
    pub fn duplicate(&self) -> (r: StateSequence)
        ensures
            seg_view(r) == seg_view(*self),
    {
        let mut chars: Vec<char> = Vec::new();
        let mut i: usize = 0;
        while i < self.sequence.len()
            invariant
                i <= self.sequence@.len(),
                chars@ == self.sequence@.subrange(0, i as int),
            decreases self.sequence@.len() - i,
        {
            chars.push(self.sequence[i]);
            i = i + 1;
            proof {
                assert(chars@ =~= self.sequence@.subrange(0, i as int));
            }
        }
        proof {
            assert(chars@ =~= self.sequence@);
        }
        StateSequence { match_type: self.match_type, sequence: chars }
    }
}

/// What the current position of a pattern expects next.
#[derive(Debug, Clone, Copy, PartialEq, Eq, Structural)]
pub enum Ahead {
    /// Exactly this character.
    Exactly(char),
    /// Any run of characters, ended by this one.
    AnyOr(char),
    /// Any run of characters, to the end of the input.
    Any,
}

/// What position `(gi, ci)` of the segments `toks` expects next.
pub open spec fn look_ahead_spec(toks: Seq<(MatchType, Seq<char>)>, gi: int, ci: int) -> Option<Ahead> {
    if gi < 0 || gi >= toks.len() {
        None
    } else if 0 <= ci < toks[gi].1.len() {
        if toks[gi].0 == MatchType::Literal {
            Some(Ahead::Exactly(toks[gi].1[ci]))
        } else {
            Some(Ahead::AnyOr(toks[gi].1[ci]))
        }
    } else if toks[gi].0 == MatchType::Literal {
        None
    } else {
        Some(Ahead::Any)
    }
}

/// The position after the character at `(gi, ci)`: the next character of the
/// segment, else the start of the next segment, else past the end.
pub open spec fn advance_spec(toks: Seq<(MatchType, Seq<char>)>, gi: int, ci: int) -> (int, int) {
    if ci + 1 < toks[gi].1.len() {
        (gi, ci + 1)
    } else if gi + 1 < toks.len() {
        (gi + 1, 0)
    } else {
        (toks.len() as int, 0)
    }
}

/// A position whose look-ahead lets a wildcard absorb characters.
pub open spec fn opens_wildcard(a: Option<Ahead>) -> bool {
    a is Some && !(a->0 is Exactly)
}

/// The transition of one context on an event: the new state and position, or
/// `None` where the event is illegal in the current state.
pub open spec fn feed_spec(
    st: State,
    toks: Seq<(MatchType, Seq<char>)>,
    gi: int,
    ci: int,
    ev: Event,
) -> Option<(State, int, int)> {
    if is_sink_state(st) {
        None
    } else {
        match ev {
            Event::EndOfStream => match look_ahead_spec(toks, gi, ci) {
                None => Some((State::Accepted, gi, ci)),
                Some(Ahead::Any) => Some((State::Accepted, gi, ci)),
                Some(_) => Some((State::Rejected, gi, ci)),
            },
            Event::CharIn(c) => match look_ahead_spec(toks, gi, ci) {
                None => Some((State::Beyond, gi, ci)),
                Some(Ahead::Exactly(x)) => if c == x {
                    let p = advance_spec(toks, gi, ci);
                    let s = if opens_wildcard(look_ahead_spec(toks, p.0, p.1)) {
                        State::Accepting
                    } else {
                        State::Expecting
                    };
                    Some((s, p.0, p.1))
                } else if c < x {
                    Some((State::Beyond, gi, ci))
                } else {
                    Some((State::Rejected, gi, ci))
                },
                Some(Ahead::AnyOr(x)) => if c == x {
                    let p = advance_spec(toks, gi, ci);
                    Some((State::Accepting, p.0, p.1))
                } else {
                    Some((st, gi, ci))
                },
                Some(Ahead::Any) => Some((State::Accepting, gi, ci)),
            },
        }
    }
}

/// The mathematical value of a context.
pub struct InstanceModel {
    pub tokens: Seq<(MatchType, Seq<char>)>,
    pub state: State,
    pub gi: int,
    pub ci: int,
}

impl InstanceModel {
    /// The position lies within the segments, or exactly past them.
    pub open spec fn wf(&self) -> bool {
        &&& 0 <= self.gi <= self.tokens.len()
        &&& 0 <= self.ci
        &&& self.gi == self.tokens.len() ==> self.ci == 0
        &&& self.gi < self.tokens.len() ==> self.ci <= self.tokens[self.gi].1.len()
    }
}

/// The model of a fresh context over the non-empty segments `toks`: waiting
/// for a literal, or already inside a wildcard.
pub open spec fn fresh_model(toks: Seq<(MatchType, Seq<char>)>) -> InstanceModel {
    InstanceModel {
        tokens: toks,
        state: if toks[0].0 == MatchType::Literal {
            State::Expecting
        } else {
            State::Accepting
        },
        gi: 0,
        ci: 0,
    }
}

/// The model of a context that continues `top` with the segments `toks` appended.
pub open spec fn extended_model(top: InstanceModel, toks: Seq<(MatchType, Seq<char>)>) -> InstanceModel {
    InstanceModel { tokens: top.tokens + toks, state: top.state, gi: top.gi, ci: top.ci }
}

/// The context after `ev`, or `None` where `ev` is illegal in its state.
pub open spec fn feed_model(m: InstanceModel, ev: Event) -> Option<InstanceModel> {
    match feed_spec(m.state, m.tokens, m.gi, m.ci, ev) {
        Some(t) => Some(InstanceModel { tokens: m.tokens, state: t.0, gi: t.1, ci: t.2 }),
        None => None,
    }
}

/// The context pushed by stepping into `toks`: a fresh one (`None` where
/// `toks` is empty, which fails), or the continuation of the top context.
pub open spec fn step_in_model(top: Option<InstanceModel>, toks: Seq<(MatchType, Seq<char>)>) -> Option<InstanceModel> {
    match top {
        None => if toks.len() == 0 {
            None
        } else {
            Some(fresh_model(toks))
        },
        Some(t) => Some(extended_model(t, toks)),
    }
}

/// The top context, if any.
pub open spec fn top_of(ctxs: Seq<InstanceModel>) -> Option<InstanceModel> {
    if ctxs.len() == 0 {
        None
    } else {
        Some(ctxs.last())
    }
}

/// The context still has pattern left to match against further input.
pub open spec fn model_accepts_more(m: InstanceModel) -> bool {
    m.gi < m.tokens.len()
}

/// The pushdown matcher of a lookup: a stack of matching contexts, pushed and
/// popped in step with the descent through the trie, each moving by
/// `feed_spec`.
pub trait PushdownStateMachine: Sized {
    /// The matcher's internal invariant.
    spec fn inv(&self) -> bool;

    /// The contexts, bottom first.
    spec fn contexts(&self) -> Seq<InstanceModel>;

    fn new() -> (r: Self)
        ensures
            r.inv(),
            r.contexts().len() == 0,
    ;

    /// Pushes a context: a fresh one where there is none, else one that
    /// continues the top context with `key` appended.
    fn step_in(&mut self, key: &Vec<StateSequence>)
        requires
            old(self).inv(),
        ensures
            final(self).inv(),
            final(self).contexts().len() == old(self).contexts().len() + 1,
            final(self).contexts().drop_last() == old(self).contexts(),
            match step_in_model(top_of(old(self).contexts()), segs_view(key@)) {
                Some(m) => final(self).contexts().last() == m,
                None => final(self).contexts().last().state is Failure,
            },
    ;

    /// Pops the top context, if any.
    fn step_out(&mut self)
        requires
            old(self).inv(),
        ensures
            final(self).inv(),
            final(self).contexts() == if old(self).contexts().len() == 0 {
                old(self).contexts()
            } else {
                old(self).contexts().drop_last()
            },
    ;

    fn accepts_more(&self) -> (r: bool)
        requires
            self.inv(),
        ensures
            r == (self.contexts().len() > 0 && model_accepts_more(self.contexts().last())),
    ;

    /// Moves the top context by `ev`; an illegal event leaves it failed.
    fn feed(&mut self, ev: Event)
        requires
            old(self).inv(),
        ensures
            final(self).inv(),
            old(self).contexts().len() == 0 ==> final(self).contexts() == old(self).contexts(),
            old(self).contexts().len() > 0 ==> {
                let n = old(self).contexts().len();
                &&& final(self).contexts().len() == n
                &&& final(self).contexts().drop_last() == old(self).contexts().drop_last()
                &&& match feed_model(old(self).contexts().last(), ev) {
                    Some(m) => final(self).contexts().last() == m,
                    None => final(self).contexts().last().state is Failure,
                }
            },
    ;

    fn state(&self) -> (r: State)
        requires
            self.inv(),
        ensures
            self.contexts().len() > 0 ==> r == self.contexts().last().state,
            self.contexts().len() == 0 ==> r is Failure,
    ;

    fn is_sink(&self) -> (r: bool)
        requires
            self.inv(),
        ensures
            r == (self.contexts().len() == 0 || is_sink_state(self.contexts().last().state)),
    ;
}

} // verus!
