//! Lookups of keys without wildcards: in a well-formed trie of literal keys,
//! the lookup of a stored key yields its value first.
use vstd::prelude::*;
use crate::iterator::{feed_chars, settle, walk};
use crate::key::literal_segments;
use crate::matcher::{
    Ahead, Event, InstanceModel, MatchType, State, extended_model, feed_model, look_ahead_spec,
    segs_view, step_in_model,
};
use crate::node::{RFRNode, child_matches};

verus! {

/// A context waiting at character `j` of the literal segment `s`, its last.
pub open spec fn at_literal(m: InstanceModel, s: Seq<char>, j: int) -> bool {
    &&& m.tokens.len() >= 1
    &&& m.tokens.last() == (MatchType::Literal, s)
    &&& m.gi == m.tokens.len() - 1
    &&& m.ci == j
    &&& m.state == State::Expecting
}

/// A context past the end of its pattern, still open; or no context at all.
pub open spec fn ready(p: Option<InstanceModel>) -> bool {
    p is None || (p->0.gi == p->0.tokens.len() && p->0.ci == 0 && p->0.state == State::Expecting)
}

/// The context `m` moved past the end of its pattern.
pub open spec fn past_end(m: InstanceModel) -> InstanceModel {
    InstanceModel { tokens: m.tokens, state: State::Expecting, gi: m.tokens.len() as int, ci: 0 }
}

proof fn lemma_feed_literal(m: InstanceModel, s: Seq<char>, j: int, cand: Seq<char>, pos: int)
    requires
        at_literal(m, s, j),
        0 <= j < s.len(),
        0 <= pos,
        pos + (s.len() - j) <= cand.len(),
        cand.subrange(pos, pos + (s.len() - j)) == s.subrange(j, s.len() as int),
    ensures
        feed_chars(m, cand, pos) == Some((past_end(m), pos + (s.len() - j))),
    decreases s.len() - j,
{
    let gi = m.gi;
    assert(m.tokens[gi] == (MatchType::Literal, s));
    let ca = cand.subrange(pos, pos + (s.len() - j));
    let sb = s.subrange(j, s.len() as int);
    assert(ca[0] == cand[pos]);
    assert(sb[0] == s[j]);
    assert(ca[0] == sb[0]);
    assert(cand[pos] == s[j]);
    assert(look_ahead_spec(m.tokens, gi, j) == Some(Ahead::Exactly(s[j])));
    if j + 1 < s.len() {
        let m1 = InstanceModel { tokens: m.tokens, state: State::Expecting, gi: gi, ci: j + 1 };
        assert(look_ahead_spec(m.tokens, gi, j + 1) == Some(Ahead::Exactly(s[j + 1])));
        assert(feed_model(m, Event::CharIn(cand[pos])) == Some(m1));
        assert(cand.subrange(pos + 1, pos + 1 + (s.len() - (j + 1))) =~= s.subrange(j + 1, s.len() as int)) by {
            assert forall|q: int| 0 <= q < s.len() - (j + 1) implies #[trigger] cand.subrange(pos + 1, pos + 1 + (s.len() - (j + 1)))[q]
                == s.subrange(j + 1, s.len() as int)[q] by {
                assert(ca[q + 1] == sb[q + 1]);
                assert(ca[q + 1] == cand[pos + 1 + q]);
                assert(sb[q + 1] == s[j + 1 + q]);
            }
        }
        lemma_feed_literal(m1, s, j + 1, cand, pos + 1);
    } else {
        assert(look_ahead_spec(m.tokens, m.tokens.len() as int, 0) is None);
        assert(feed_model(m, Event::CharIn(cand[pos])) == Some(past_end(m)));
    }
}

proof fn lemma_feed_reject(m: InstanceModel, s: Seq<char>, cand: Seq<char>, pos: int)
    requires
        at_literal(m, s, 0),
        s.len() > 0,
        0 <= pos < cand.len(),
        (s[0] as int) < (cand[pos] as int),
    ensures
        settle(m, cand, pos) is Some,
        (settle(m, cand, pos)->0).0.state == State::Rejected,
{
    let gi = m.gi;
    assert(m.tokens[gi] == (MatchType::Literal, s));
    assert(look_ahead_spec(m.tokens, gi, 0) == Some(Ahead::Exactly(s[0])));
    let m1 = InstanceModel { tokens: m.tokens, state: State::Rejected, gi: gi, ci: 0 };
    assert(feed_model(m, Event::CharIn(cand[pos])) == Some(m1));
    assert(feed_chars(m1, cand, pos + 1) == Some((m1, pos + 1)));
}

/// The context a literal child starts from, under a ready parent.
proof fn lemma_step_in_literal(p: Option<InstanceModel>, s: Seq<char>)
    requires
        ready(p),
        s.len() > 0,
    ensures
        step_in_model(p, literal_segments(s)) is Some,
        at_literal(step_in_model(p, literal_segments(s))->0, s, 0),
{
    let toks = literal_segments(s);
    assert(toks == seq![(MatchType::Literal, s)]);
    if p is Some {
        let e = extended_model(p->0, toks);
        assert(e.tokens.last() == (MatchType::Literal, s));
    }
}

/// In a well-formed tree of literal keys, the lookup of a candidate whose rest
/// (from `pos` on) is a stored key yields that key's value first.
pub proof fn lemma_walk_literal<V>(n: RFRNode<String, V>, p: Option<InstanceModel>, pos: int, cand: Seq<char>, v: V)
    requires
        n.wf(),
        ready(p),
        0 <= pos < cand.len(),
        n.get_rel(cand.subrange(pos, cand.len() as int)) == Some(v),
    ensures
        walk(n, 0, p, pos, cand).0.len() > 0,
        walk(n, 0, p, pos, cand).0[0] == v,
    decreases n,
{
    let k = cand.subrange(pos, cand.len() as int);
    if !(exists|i: int| 0 <= i < n.children@.len() && child_matches(*n.children@[i], k)) {
        assert(n.get_rel(k) is None);
    }
    let t = choose|i: int| 0 <= i < n.children@.len() && child_matches(*n.children@[i], k);
    let c = *n.children@[t];
    let s = c.key_chars();
    assert(c.wf() && s.len() > 0);
    assert(k.subrange(0, s.len() as int)[0] == k[0]);
    assert(k[0] == cand[pos]);
    n.lemma_get_rel_by_first(t, k);
    lemma_walk_skip(n, 0, t, p, pos, cand);
    assert(segs_view(c.node_key.seq@) == literal_segments(s));
    lemma_step_in_literal(p, s);
    let m0 = step_in_model(p, literal_segments(s))->0;
    assert(cand.subrange(pos, pos + s.len()) =~= s.subrange(0, s.len() as int)) by {
        assert forall|q: int| 0 <= q < s.len() implies #[trigger] cand.subrange(pos, pos + s.len())[q] == s.subrange(0, s.len() as int)[q] by {
            assert(k.subrange(0, s.len() as int)[q] == k[q]);
        }
    }
    lemma_feed_literal(m0, s, 0, cand, pos);
    let pe = past_end(m0);
    let p2 = pos + s.len();
    if p2 == cand.len() {
        assert(look_ahead_spec(pe.tokens, pe.tokens.len() as int, 0) is None);
        assert((settle(m0, cand, pos)->0).0.state == State::Accepted);
        assert(s.len() == k.len());
        assert(c.value == Some(v));
    } else {
        assert(settle(m0, cand, pos) == Some((pe, p2)));
        let k2 = k.subrange(s.len() as int, k.len() as int);
        assert(k2 =~= cand.subrange(p2, cand.len() as int));
        lemma_walk_literal(c, Some(pe), p2, cand, v);
    }
}

/// Children before `t` whose first character sorts before the candidate's are
/// rejected, so the walk from `i` is the walk from `t`.
proof fn lemma_walk_skip<V>(n: RFRNode<String, V>, i: int, t: int, p: Option<InstanceModel>, pos: int, cand: Seq<char>)
    requires
        n.wf(),
        ready(p),
        0 <= i <= t < n.children@.len(),
        0 <= pos < cand.len(),
        n.children@[t].first() == cand[pos] as int,
    ensures
        walk(n, i, p, pos, cand) == walk(n, t, p, pos, cand),
    decreases t - i,
{
    if i < t {
        let c = *n.children@[i];
        let s = c.key_chars();
        assert(c.wf() && s.len() > 0);
        assert(n.children@[i].first() < n.children@[t].first());
        assert(segs_view(c.node_key.seq@) == literal_segments(s));
        lemma_step_in_literal(p, s);
        lemma_feed_reject(step_in_model(p, literal_segments(s))->0, s, cand, pos);
        lemma_walk_skip(n, i + 1, t, p, pos, cand);
    }
}

} // verus!
