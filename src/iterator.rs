//! The lookup iterator: a depth-first walk of the trie driven by a pushdown matcher.
use vstd::prelude::*;
use crate::key::KeyPrefix;
use crate::matcher::{
    Event, InstanceModel, PushdownStateMachine, State, feed_model, is_sink_state, model_accepts_more,
    segs_view, step_in_model, top_of,
};
use crate::node::{RFRNode, descend, holds_clone, in_tree, lemma_descend_push, valid_path};
use crate::trie::{Merge, merge_fold};

verus! {

/// Feeding the candidate from `pos` on, one character at a time, while the
/// context is not a sink and still has pattern left after each character:
/// the context and position reached, or `None` where an event was illegal.
pub open spec fn feed_chars(m: InstanceModel, cand: Seq<char>, pos: int) -> Option<(InstanceModel, int)>
    decreases cand.len() - pos,
{
    if pos < 0 || pos >= cand.len() || is_sink_state(m.state) {
        Some((m, pos))
    } else {
        match feed_model(m, Event::CharIn(cand[pos])) {
            None => None,
            Some(m1) => if !model_accepts_more(m1) {
                Some((m1, pos + 1))
            } else {
                feed_chars(m1, cand, pos + 1)
            },
        }
    }
}

/// `feed_chars`, then the end of input where the whole candidate was consumed
/// and the context is still open.
pub open spec fn settle(m: InstanceModel, cand: Seq<char>, pos: int) -> Option<(InstanceModel, int)> {
    match feed_chars(m, cand, pos) {
        None => None,
        Some(t) => if t.1 == cand.len() && !is_sink_state(t.0.state) {
            match feed_model(t.0, Event::EndOfStream) {
                None => None,
                Some(m2) => Some((m2, t.1)),
            }
        } else {
            Some(t)
        },
    }
}

/// A value, as a sequence of zero or one values.
pub open spec fn opt_seq<V>(v: Option<V>) -> Seq<V> {
    match v {
        Some(x) => seq![x],
        None => Seq::empty(),
    }
}

/// The values a lookup of `cand` yields from `n`'s children at index `i` on,
/// where the context of `n` is `parent` (none at the root) and `pos`
/// characters are consumed; and whether the lookup stops there. Each child is
/// stepped into and settled: an open context descends into the child, an
/// accepted one yields the child's value, a rejected one goes on with the
/// next sibling, and any other state stops the whole lookup.
pub open spec fn walk<K: KeyPrefix, V>(
    n: RFRNode<K, V>,
    i: int,
    parent: Option<InstanceModel>,
    pos: int,
    cand: Seq<char>,
) -> (Seq<V>, bool)
    decreases n, n.children@.len() - i,
{
    if i < 0 || i >= n.children@.len() {
        (Seq::empty(), false)
    } else {
        let c = *n.children@[i];
        let rest = walk(n, i + 1, parent, pos, cand);
        match step_in_model(parent, segs_view(c.node_key.seq@)) {
            None => (Seq::empty(), true),
            Some(m) => match settle(m, cand, pos) {
                None => (Seq::empty(), true),
                Some(t) => {
                    let st = t.0.state;
                    if st is Accepting || st is Expecting {
                        let d = walk(c, 0, Some(t.0), t.1, cand);
                        if d.1 {
                            d
                        } else {
                            (d.0 + rest.0, rest.1)
                        }
                    } else if st is Accepted {
                        (opt_seq(c.value) + rest.0, rest.1)
                    } else if st is Rejected {
                        rest
                    } else {
                        (Seq::empty(), true)
                    }
                },
            },
        }
    }
}

/// The values a lookup of `cand` below `root` yields, in order.
pub open spec fn lookup_spec<K: KeyPrefix, V>(root: RFRNode<K, V>, cand: Seq<char>) -> Seq<V> {
    walk(root, 0, None, 0, cand).0
}

/// `p` holds clones of the first values of `full`, in order.
pub open spec fn clones_prefix<V: Clone>(p: Seq<V>, full: Seq<V>) -> bool {
    p.len() <= full.len() && forall|i: int| 0 <= i < p.len() ==> cloned(full[i], #[trigger] p[i])
}

/// Feeds the candidate from `pos` into the top context and settles it.
fn settle_child<M: PushdownStateMachine>(m: &mut M, cand: &Vec<char>, pos: usize) -> (r: usize)
    requires
        old(m).inv(),
        old(m).contexts().len() > 0,
        pos <= cand@.len(),
    ensures
        final(m).inv(),
        final(m).contexts().len() == old(m).contexts().len(),
        final(m).contexts().drop_last() == old(m).contexts().drop_last(),
        pos <= r <= cand@.len(),
        match settle(old(m).contexts().last(), cand@, pos as int) {
            Some(t) => final(m).contexts().last() == t.0 && r == t.1,
            None => final(m).contexts().last().state is Failure,
        },
{
    let n = cand.len();
    let ghost target = feed_chars(old(m).contexts().last(), cand@, pos as int);
    let ghost base = old(m).contexts().drop_last();
    let mut p: usize = pos;
    while p < n
        invariant_except_break
            (m.contexts().last().state is Failure && target is None) || feed_chars(
                m.contexts().last(),
                cand@,
                p as int,
            ) == target,
        invariant
            m.inv(),
            n == cand@.len(),
            pos <= p <= n,
            m.contexts().len() == base.len() + 1,
            m.contexts().drop_last() == base,
        ensures
            m.inv(),
            pos <= p <= n,
            m.contexts().len() == base.len() + 1,
            m.contexts().drop_last() == base,
            target is None ==> m.contexts().last().state is Failure,
            target is Some ==> target == Some((m.contexts().last(), p as int)),
        decreases n - p,
    {
        if m.is_sink() {
            break;
        }
        let ghost cur = m.contexts().last();
        m.feed(Event::CharIn(cand[p]));
        p = p + 1;
        proof {
            assert(m.contexts().drop_last() == base);
        }
        if !m.accepts_more() {
            break;
        }
    }
    if p == n && !m.is_sink() {
        m.feed(Event::EndOfStream);
    }
    p
}

/// Where the contexts agree on all a stack uses, the stack's rest of the
/// lookup is the same.
proof fn lemma_rem_contexts<'a, K: KeyPrefix, V>(
    s: Seq<LookupState<'a, K, V>>,
    c1: Seq<InstanceModel>,
    c2: Seq<InstanceModel>,
    cand: Seq<char>,
)
    requires
        s.len() > 0 ==> c1.len() >= s.len() - 1 && c2.len() >= s.len() - 1,
        forall|k: int| 0 <= k < s.len() - 1 ==> c1[k] == c2[k],
    ensures
        rem(s, c1, cand) == rem(s, c2, cand),
    decreases s.len(),
{
    if s.len() > 0 {
        lemma_rem_contexts(s.drop_last(), c1, c2, cand);
    }
}

/// The number of nodes in the subtrees of `n`'s children from index `i` on.
pub open spec fn rest_size<K, V>(n: RFRNode<K, V>, i: int) -> nat
    decreases n, n.children@.len() - i,
{
    if i < 0 || i >= n.children@.len() {
        0
    } else {
        1 + rest_size(*n.children@[i], 0) + rest_size(n, i + 1)
    }
}

/// One level of the walk: a node, the next child to try, and how much of the
/// candidate was consumed on the way down to the node.
pub struct LookupState<'a, K, V> {
    pub node: &'a RFRNode<K, V>,
    pub current_child_idx: usize,
    pub key_char_pos: usize,
}

/// The work left in a walk: each frame counts twice its remaining nodes, plus one.
pub open spec fn stack_weight<'a, K, V>(s: Seq<LookupState<'a, K, V>>) -> nat
    decreases s.len(),
{
    if s.len() == 0 {
        0
    } else {
        stack_weight(s.drop_last()) + 2 * rest_size(*s.last().node, s.last().current_child_idx as int)
            + 1
    }
}

/// The values the frames of a walk still yield, top frame first, and whether
/// the lookup stops within them. Frame `j` has context `ctxs[j - 1]` (none for
/// the root's frame).
pub open spec fn rem<'a, K: KeyPrefix, V>(
    s: Seq<LookupState<'a, K, V>>,
    ctxs: Seq<InstanceModel>,
    cand: Seq<char>,
) -> (Seq<V>, bool)
    decreases s.len(),
{
    if s.len() == 0 {
        (Seq::empty(), false)
    } else {
        let j = s.len() - 1;
        let f = s[j];
        let parent = if j == 0 {
            None
        } else {
            Some(ctxs[j - 1])
        };
        let w = walk(*f.node, f.current_child_idx as int, parent, f.key_char_pos as int, cand);
        if w.1 {
            w
        } else {
            let r = rem(s.drop_last(), ctxs, cand);
            (w.0 + r.0, r.1)
        }
    }
}

proof fn lemma_stack_weight_push<'a, K, V>(s: Seq<LookupState<'a, K, V>>, x: LookupState<'a, K, V>)
    ensures
        stack_weight(s.push(x)) == stack_weight(s) + 2 * rest_size(*x.node, x.current_child_idx as int) + 1,
{
    assert(s.push(x).drop_last() =~= s);
}

/// A lazy lookup: yields, in trie order, the values of the keys that match the
/// candidate.
pub struct TrieIterator<'a, K, V, M> {
    stack: Vec<LookupState<'a, K, V>>,
    match_key_chars: Vec<char>,
    matcher_sm: M,
    done: bool,
    produced: Ghost<Seq<V>>,
    root: Ghost<RFRNode<K, V>>,
}

impl<'a, K: KeyPrefix, V: Clone, M: PushdownStateMachine> TrieIterator<'a, K, V, M> {
    /// The matcher's invariant holds and every frame's position lies within the candidate.
    pub closed spec fn inv(&self) -> bool {
        &&& self.matcher_sm.inv()
        &&& self.root@.wf()
        &&& forall|i: int|
            0 <= i < self.stack@.len() ==> (#[trigger] self.stack@[i]).key_char_pos
                <= self.match_key_chars@.len() && in_tree(self.root@, *self.stack@[i].node)
        &&& forall|i: int| 0 <= i < self.produced@.len() ==> holds_clone(self.root@, #[trigger] self.produced@[i])
        &&& clones_prefix(self.produced@, lookup_spec(self.root@, self.match_key_chars@))
        &&& self.done ==> self.produced@.len() == lookup_spec(self.root@, self.match_key_chars@).len()
        &&& !self.done ==> self.in_step()
    }

    /// One matcher context per frame below the root's, and the frames still
    /// yield exactly the rest of the lookup.
    closed spec fn in_step(&self) -> bool {
        let full = lookup_spec(self.root@, self.match_key_chars@);
        &&& self.stack@.len() == 0 ==> self.matcher_sm.contexts().len() == 0
        &&& self.stack@.len() > 0 ==> self.matcher_sm.contexts().len() == self.stack@.len() - 1
        &&& rem(self.stack@, self.matcher_sm.contexts(), self.match_key_chars@).0 == full.subrange(
            self.produced@.len() as int,
            full.len() as int,
        )
    }

    /// The candidate key's characters.
    pub closed spec fn candidate(&self) -> Seq<char> {
        self.match_key_chars@
    }

    /// What the iterator has yielded are clones of the first values of the
    /// lookup, all of them once it is done.
    pub proof fn lemma_produced_lookup(&self)
        requires
            self.inv(),
        ensures
            clones_prefix(self.produced(), lookup_spec(self.root(), self.candidate())),
            self.is_done() ==> self.produced().len() == lookup_spec(self.root(), self.candidate()).len(),
    {
    }

    /// Every value yielded so far is a clone of a value stored in the trie.
    pub proof fn lemma_produced_stored(&self)
        requires
            self.inv(),
        ensures
            forall|i: int| 0 <= i < self.produced().len() ==> holds_clone(self.root(), #[trigger] self.produced()[i]),
    {
    }

    /// The root of the trie being searched.
    pub closed spec fn root(&self) -> RFRNode<K, V> {
        self.root@
    }

    /// The iteration has ended: it yields nothing more.
    pub closed spec fn is_done(&self) -> bool {
        self.done
    }

    /// The values yielded so far, in order.
    pub closed spec fn produced(&self) -> Seq<V> {
        self.produced@
    }

    /// The work left, which each yielded value decreases.
    pub closed spec fn remaining(&self) -> nat {
        stack_weight(self.stack@)
    }

    /// Starts a lookup of `match_key` below `root`.
    pub fn new(root: &'a RFRNode<K, V>, match_key: &K) -> (r: Self)
        requires
            root.wf(),
        ensures
            r.inv(),
            !r.is_done(),
            r.produced() == Seq::<V>::empty(),
            r.root() == *root,
            r.candidate() == match_key.key_view(),
    {
        let mut stack: Vec<LookupState<'a, K, V>> = Vec::new();
        stack.push(LookupState { node: root, current_child_idx: 0, key_char_pos: 0 });
        proof {
            assert(descend(*root, Seq::<int>::empty()) == *root);
            assert(valid_path(*root, Seq::<int>::empty()));
        }
        let chars = match_key.key_chars();
        let ghost full = lookup_spec(*root, chars@);
        proof {
            assert(stack@.drop_last() =~= Seq::<LookupState<'a, K, V>>::empty());
            assert(full.subrange(0, full.len() as int) =~= full);
            let w = walk(*root, 0, None, 0, chars@);
            assert(stack@[0].node == root && stack@[0].current_child_idx == 0 && stack@[0].key_char_pos == 0);
            assert(rem(stack@.drop_last(), Seq::<InstanceModel>::empty(), chars@) == (Seq::<V>::empty(), false));
            assert(w.0 + Seq::<V>::empty() =~= w.0);
            assert(rem(stack@, Seq::<InstanceModel>::empty(), chars@).0 == full);
        }
        let r = TrieIterator {
            stack,
            match_key_chars: chars,
            matcher_sm: M::new(),
            done: false,
            produced: Ghost(Seq::empty()),
            root: Ghost(*root),
        };
        proof {
            assert(r.matcher_sm.contexts() =~= Seq::<InstanceModel>::empty());
            assert(full.subrange(0, full.len() as int) =~= full);
            assert(r.in_step());
            assert(clones_prefix(r.produced@, full));
        }
        r
    }

    /// The next matching value. Once it returns `None` the lookup has ended
    /// (every branch was tried, or the candidate sorts past all that is left)
    /// and it returns `None` from then on.
    pub fn next(&mut self) -> (r: Option<V>)
        requires
            old(self).inv(),
        ensures
            final(self).inv(),
            old(self).is_done() ==> r is None,
            r is None <==> final(self).is_done(),
            r is Some ==> final(self).remaining() < old(self).remaining(),
            r is Some ==> final(self).produced() == old(self).produced().push(r->0),
            r is None ==> final(self).produced() == old(self).produced(),
            r is Some ==> holds_clone(old(self).root(), r->0),
            final(self).root() == old(self).root(),
            final(self).candidate() == old(self).candidate(),
            clones_prefix(final(self).produced(), lookup_spec(final(self).root(), final(self).candidate())),
            r is None ==> final(self).produced().len() == lookup_spec(
                final(self).root(),
                final(self).candidate(),
            ).len(),
    {
        if self.done {
            return None;
        }
        let n_chars = self.match_key_chars.len();
        let ghost full = lookup_spec(self.root@, self.match_key_chars@);
        loop
            invariant
                self.inv(),
                !self.done,
                !old(self).done,
                self.produced@ == old(self).produced@,
                self.root@ == old(self).root@,
                self.match_key_chars == old(self).match_key_chars,
                n_chars == self.match_key_chars@.len(),
                stack_weight(self.stack@) <= stack_weight(old(self).stack@),
                full == lookup_spec(self.root@, self.match_key_chars@),
            decreases stack_weight(self.stack@),
        {
            let ghost before = self.stack@;
            let ghost ctxs = self.matcher_sm.contexts();
            let ghost cand = self.match_key_chars@;
            let ghost plen = self.produced@.len();
            let popped = self.stack.pop();
            match popped {
                None => {
                    proof {
                        assert(full.subrange(plen as int, full.len() as int).len() == 0);
                    }
                    self.done = true;
                    return None;
                },
                Some(ls) => {
                    proof {
                        assert(before.drop_last() =~= self.stack@);
                        assert(ls == before.last());
                        assert(before[before.len() - 1] == ls);
                        assert(self.stack@.push(ls) =~= before);
                        lemma_stack_weight_push(self.stack@, ls);
                    }
                    let node = ls.node;
                    let idx = ls.current_child_idx;
                    let ghost parent: Option<InstanceModel> = if before.len() == 1 {
                        None
                    } else {
                        Some(ctxs[before.len() - 2])
                    };
                    let ghost w = walk(*node, idx as int, parent, ls.key_char_pos as int, cand);
                    let ghost rr = rem(self.stack@, ctxs, cand);
                    proof {
                        assert(rem(before, ctxs, cand) == if w.1 {
                            w
                        } else {
                            (w.0 + rr.0, rr.1)
                        });
                        assert(top_of(ctxs) == parent);
                    }
                    if idx >= node.children.len() {
                        if self.stack.len() > 0 {
                            self.matcher_sm.step_out();
                        }
                        proof {
                            lemma_rem_contexts(self.stack@, ctxs, self.matcher_sm.contexts(), cand);
                            assert(w.0 + rr.0 =~= rr.0);
                            assert(forall|i: int| 0 <= i < self.stack@.len() ==> self.stack@[i] == before[i]);
                            assert(rest_size(*node, idx as int) == 0);
                        }
                        continue;
                    }
                    let child: &'a RFRNode<K, V> = &node.children[idx];
                    let ghost path = choose|path: Seq<int>| valid_path(self.root@, path) && #[trigger] descend(self.root@, path) == *node;
                    proof {
                        assert(in_tree(self.root@, *before[before.len() - 1].node));
                        lemma_descend_push(self.root@, path, idx as int);
                        assert(in_tree(self.root@, *child));
                    }
                    proof {
                        assert(rest_size(*node, idx as int) == 1 + rest_size(*child, 0) + rest_size(*node, idx + 1));
                    }
                    self.matcher_sm.step_in(&child.node_key.seq);
                    let ghost cs = self.matcher_sm.contexts();
                    let ghost m0 = step_in_model(parent, segs_view(child.node_key.seq@));
                    let pos = settle_child(&mut self.matcher_sm, &self.match_key_chars, ls.key_char_pos);
                    let ghost fin = self.matcher_sm.contexts();
                    let ghost rw = walk(*node, idx + 1, parent, ls.key_char_pos as int, cand);
                    proof {
                        assert(cs.drop_last() == ctxs);
                        assert(fin.drop_last() == ctxs);
                        if m0 is None {
                            assert(cs.last().state is Failure);
                            assert(settle(cs.last(), cand, ls.key_char_pos as int) == Some((cs.last(), ls.key_char_pos as int)));
                            assert(fin.last().state is Failure);
                            assert(w == (Seq::<V>::empty(), true));
                        } else {
                            assert(cs.last() == m0->0);
                            if settle(m0->0, cand, ls.key_char_pos as int) is None {
                                assert(fin.last().state is Failure);
                                assert(w == (Seq::<V>::empty(), true));
                            } else {
                                let t = settle(m0->0, cand, ls.key_char_pos as int)->0;
                                assert(fin.last() == t.0 && pos == t.1);
                            }
                        }
                    }
                    let next_sibling = LookupState {
                        node,
                        current_child_idx: idx + 1,
                        key_char_pos: ls.key_char_pos,
                    };
                    let ghost rest = self.stack@;
                    proof {
                        lemma_stack_weight_push(rest, next_sibling);
                        assert(stack_weight(rest.push(next_sibling)) < stack_weight(before));
                        assert forall|i: int| 0 <= i < rest.push(next_sibling).len() implies (#[trigger] rest.push(next_sibling)[i]).key_char_pos
                            <= self.match_key_chars@.len() by {
                            if i < rest.len() {
                                assert(rest[i] == before[i]);
                            }
                        }
                    }
                    match self.matcher_sm.state() {
                        State::Accepting | State::Expecting => {
                            let down = LookupState { node: child, current_child_idx: 0, key_char_pos: pos };
                            proof {
                                lemma_stack_weight_push(rest.push(next_sibling), down);
                                assert forall|i: int| 0 <= i < rest.push(next_sibling).push(down).len() implies (#[trigger] rest.push(next_sibling).push(down)[i]).key_char_pos
                                    <= self.match_key_chars@.len() by {
                                    if i < rest.len() + 1 {
                                        assert(rest.push(next_sibling).push(down)[i] == rest.push(next_sibling)[i]);
                                    }
                                }
                            }
                            self.stack.push(next_sibling);
                            self.stack.push(down);
                            proof {
                                let t = settle(m0->0, cand, ls.key_char_pos as int)->0;
                                let d = walk(*child, 0, Some(t.0), t.1, cand);
                                assert(w == if d.1 {
                                    d
                                } else {
                                    (d.0 + rw.0, rw.1)
                                });
                                let s1 = rest.push(next_sibling);
                                let s2 = s1.push(down);
                                assert(self.stack@ == s2);
                                assert(fin =~= ctxs.push(t.0));
                                assert(s2.drop_last() =~= s1);
                                assert(s1.drop_last() =~= rest);
                                lemma_rem_contexts(rest, ctxs, fin, cand);
                                let r1 = rem(s1, fin, cand);
                                assert(r1 == if rw.1 {
                                    rw
                                } else {
                                    (rw.0 + rr.0, rr.1)
                                });
                                assert(rem(s2, fin, cand) == if d.1 {
                                    d
                                } else {
                                    (d.0 + r1.0, r1.1)
                                });
                                if !d.1 && !rw.1 {
                                    assert((d.0 + rw.0) + rr.0 =~= d.0 + (rw.0 + rr.0));
                                }
                                assert(rem(s2, fin, cand).0 == rem(before, ctxs, cand).0);
                            }
                        },
                        State::Accepted => {
                            self.matcher_sm.step_out();
                            self.stack.push(next_sibling);
                            let ghost r1 = rem(self.stack@, ctxs, cand);
                            proof {
                                assert(self.matcher_sm.contexts() == ctxs);
                                assert(w == (opt_seq(child.value) + rw.0, rw.1));
                                assert(self.stack@.drop_last() =~= rest);
                                assert(r1 == if rw.1 {
                                    rw
                                } else {
                                    (rw.0 + rr.0, rr.1)
                                });
                                if !rw.1 {
                                    assert((opt_seq(child.value) + rw.0) + rr.0 =~= opt_seq(child.value) + (rw.0
                                        + rr.0));
                                }
                                assert(rem(before, ctxs, cand).0 == opt_seq(child.value) + r1.0);
                            }
                            match &child.value {
                                Some(v) => {
                                    let out = v.clone();
                                    proof {
                                        let cp = path.push(idx as int);
                                        assert(descend(self.root@, cp).value is Some);
                                        assert(cloned(descend(self.root@, cp).value->0, out));
                                        assert(holds_clone(self.root@, out));
                                        let tail = full.subrange(plen as int, full.len() as int);
                                        assert(tail == seq![*v] + r1.0);
                                        assert(tail[0] == *v);
                                        assert(full[plen as int] == *v);
                                        assert(full.subrange(plen as int + 1, full.len() as int) =~= tail.subrange(1, tail.len() as int));
                                        assert(tail.subrange(1, tail.len() as int) =~= r1.0);
                                    }
                                    self.produced = Ghost(self.produced@.push(out));
                                    return Some(out);
                                },
                                None => {
                                    proof {
                                        assert(opt_seq(child.value) + r1.0 =~= r1.0);
                                    }
                                },
                            }
                        },
                        State::Rejected => {
                            self.matcher_sm.step_out();
                            self.stack.push(next_sibling);
                            proof {
                                assert(self.matcher_sm.contexts() == ctxs);
                                assert(w == rw);
                                assert(self.stack@.drop_last() =~= rest);
                            }
                        },
                        _ => {
                            proof {
                                assert(w == (Seq::<V>::empty(), true));
                                assert(full.subrange(plen as int, full.len() as int).len() == 0);
                            }
                            self.done = true;
                            self.stack = Vec::new();
                            return None;
                        },
                    }
                },
            }
        }
    }
}

impl<'a, K: KeyPrefix, V: Clone + Merge, M: PushdownStateMachine> TrieIterator<'a, K, V, M> {
    /// Drains the lookup and combines the values it yields with `merge`, from
    /// the left; `None` where it yields nothing more.
    pub fn merge_rest(&mut self) -> (r: Option<V>)
        requires
            old(self).inv(),
        ensures
            final(self).inv(),
            final(self).is_done(),
            final(self).root() == old(self).root(),
            final(self).candidate() == old(self).candidate(),
            clones_prefix(final(self).produced(), lookup_spec(final(self).root(), final(self).candidate())),
            final(self).produced().len() == lookup_spec(final(self).root(), final(self).candidate()).len(),
            old(self).produced().is_prefix_of(final(self).produced()),
            r == merge_fold(final(self).produced().subrange(
                old(self).produced().len() as int,
                final(self).produced().len() as int,
            )),
    {
        let ghost start = self.produced().len();
        let mut acc: Option<V> = None;
        proof {
            assert(self.produced().subrange(start as int, start as int) =~= Seq::<V>::empty());
        }
        loop
            invariant
                self.inv(),
                start <= self.produced().len(),
                self.root() == old(self).root(),
                self.candidate() == old(self).candidate(),
                old(self).produced() == self.produced().subrange(0, start as int),
                acc == merge_fold(self.produced().subrange(start as int, self.produced().len() as int)),
            decreases self.remaining(),
        {
            let ghost prev = self.produced();
            match self.next() {
                None => {
                    proof {
                        assert(old(self).produced().is_prefix_of(self.produced()));
                        self.lemma_produced_lookup();
                    }
                    return acc;
                },
                Some(v) => {
                    proof {
                        let s_new = self.produced().subrange(start as int, self.produced().len() as int);
                        let s_old = prev.subrange(start as int, prev.len() as int);
                        assert(s_new.drop_last() =~= s_old);
                        assert(s_new.last() == v);
                        assert(self.produced().subrange(0, start as int) =~= prev.subrange(0, start as int));
                    }
                    acc = match acc {
                        None => Some(v),
                        Some(a) => Some(a.merge(&v)),
                    };
                },
            }
        }
    }
}

} // verus!
