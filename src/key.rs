//! The key capability and the stored key with its compiled segments.
use vstd::prelude::*;
use vstd::string::StrSliceExecFns;
use crate::matcher::{MatchType, StateSequence, lemma_segs_view_push, seg_view, segs_view};

verus! {

/// What the trie needs of a key type.
pub trait KeyPrefix: Sized {
    /// The key's characters.
    spec fn key_view(&self) -> Seq<char>;

    /// The key's compiled segments.
    spec fn compiled_view(&self) -> Seq<(MatchType, Seq<char>)>;

    fn key_chars(&self) -> (r: Vec<char>)
        ensures
            r@ == self.key_view(),
    ;

    fn key_len(&self) -> (r: usize)
        ensures
            r == self.key_view().len(),
    ;

    fn empty() -> (r: Self)
        ensures
            r.key_view() == Seq::<char>::empty(),
    ;

    fn new_from_key_prefix(&self, index: usize) -> (r: Self)
        requires
            index <= self.key_view().len(),
        ensures
            r.key_view() == self.key_view().subrange(0, index as int),
    ;

    fn new_from_postfix(&self, index: usize) -> (r: Self)
        requires
            index <= self.key_view().len(),
        ensures
            r.key_view() == self.key_view().subrange(index as int, self.key_view().len() as int),
    ;

    fn compiled(&self) -> (r: Vec<StateSequence>)
        ensures
            segs_view(r@) == self.compiled_view(),
            self.key_view().len() == 0 ==> r@.len() == 0,
            self.key_view().len() > 0 ==> r@.len() > 0,
    ;
}

/// The compilation of a key without wildcards: one literal segment with all of
/// its characters, or nothing for the empty key.
pub open spec fn literal_segments(s: Seq<char>) -> Seq<(MatchType, Seq<char>)> {
    if s.len() == 0 {
        Seq::empty()
    } else {
        seq![(MatchType::Literal, s)]
    }
}

/// Compiles characters as one literal segment.
pub fn compile_literal(chars: Vec<char>) -> (r: Vec<StateSequence>)
    ensures
        segs_view(r@) == literal_segments(chars@),
{
    let mut state_seq: Vec<StateSequence> = Vec::new();
    if chars.len() > 0 {
        let ghost c = chars@;
        let seg = StateSequence { match_type: MatchType::Literal, sequence: chars };
        state_seq.push(seg);
        proof {
            assert(segs_view(state_seq@) =~= seq![(MatchType::Literal, c)]);
        }
    } else {
        proof {
            assert(segs_view(state_seq@) =~= Seq::<(MatchType, Seq<char>)>::empty());
        }
    }
    state_seq
}

/// The characters of a string, one by one.
pub fn string_chars(s: &String) -> (r: Vec<char>)
    ensures
        r@ == s@,
{
    let st = s.as_str();
    let n = st.unicode_len();
    let mut out: Vec<char> = Vec::new();
    let mut i: usize = 0;
    while i < n
        invariant
            n == st@.len(),
            st@ == s@,
            i <= n,
            out@ == s@.subrange(0, i as int),
        decreases n - i,
    {
        out.push(st.get_char(i));
        i = i + 1;
        proof {
            assert(out@ =~= s@.subrange(0, i as int));
        }
    }
    proof {
        assert(out@ =~= s@);
    }
    out
}

/// Relies on `String`'s `FromIterator<&char>`: the string holds the characters
/// in order.
#[verifier::external_body]
fn string_from_chars(chars: &[char]) -> (r: String)
    ensures
        r@ == chars@,
{
    chars.iter().collect()
}

/// The characters of `s` in `from..to`, as a string.
pub fn string_slice(s: &String, from: usize, to: usize) -> (r: String)
    requires
        from <= to <= s@.len(),
    ensures
        r@ == s@.subrange(from as int, to as int),
{
    let chars = string_chars(s);
    let mut part: Vec<char> = Vec::new();
    let mut i: usize = from;
    while i < to
        invariant
            from <= i <= to,
            to <= chars@.len(),
            chars@ == s@,
            part@ == s@.subrange(from as int, i as int),
        decreases to - i,
    {
        part.push(chars[i]);
        i = i + 1;
        proof {
            assert(part@ =~= s@.subrange(from as int, i as int));
        }
    }
    string_from_chars(part.as_slice())
}

impl KeyPrefix for String {
    open spec fn key_view(&self) -> Seq<char> {
        self@
    }

    open spec fn compiled_view(&self) -> Seq<(MatchType, Seq<char>)> {
        literal_segments(self@)
    }

    fn key_chars(&self) -> (r: Vec<char>) {
        string_chars(self)
    }

    fn key_len(&self) -> (r: usize) {
        self.as_str().unicode_len()
    }

    fn empty() -> (r: Self) {
        String::new()
    }

    fn new_from_key_prefix(&self, index: usize) -> (r: Self) {
        string_slice(self, 0, index)
    }

    fn new_from_postfix(&self, index: usize) -> (r: Self) {
        let n = self.as_str().unicode_len();
        string_slice(self, index, n)
    }

    fn compiled(&self) -> (r: Vec<StateSequence>) {
        compile_literal(string_chars(self))
    }
}

/// The first position where `a` and `b` differ, or the length of the shorter.
pub open spec fn lcp_spec(a: Seq<char>, b: Seq<char>) -> int
    decreases a.len(),
{
    if a.len() == 0 || b.len() == 0 || a[0] != b[0] {
        0
    } else {
        1 + lcp_spec(a.drop_first(), b.drop_first())
    }
}

/// `lcp_spec` is the length of the common prefix.
pub proof fn lemma_lcp(a: Seq<char>, b: Seq<char>)
    ensures
        0 <= lcp_spec(a, b) <= a.len(),
        lcp_spec(a, b) <= b.len(),
        forall|i: int| 0 <= i < lcp_spec(a, b) ==> a[i] == b[i],
        lcp_spec(a, b) < a.len() && lcp_spec(a, b) < b.len() ==> a[lcp_spec(a, b)] != b[lcp_spec(
            a,
            b,
        )],
    decreases a.len(),
{
    if a.len() == 0 || b.len() == 0 || a[0] != b[0] {
    } else {
        lemma_lcp(a.drop_first(), b.drop_first());
        assert forall|i: int| 0 <= i < lcp_spec(a, b) implies a[i] == b[i] by {
            if i > 0 {
                assert(a[i] == a.drop_first()[i - 1]);
                assert(b[i] == b.drop_first()[i - 1]);
            }
        }
    }
}

/// A key stored in the trie, with its compiled segments.
#[derive(Debug, Clone)]
pub struct TrieKey<K> {
    pub key: K,
    pub seq: Vec<StateSequence>,
}

impl<K: KeyPrefix> TrieKey<K> {
    /// The segments are the compilation of the key.
    pub open spec fn wf(&self) -> bool {
        segs_view(self.seq@) == self.key.compiled_view()
    }

    /// The key's characters.
    pub open spec fn chars(&self) -> Seq<char> {
        self.key.key_view()
    }

    pub fn new(key: K) -> (r: Self)
        ensures
            r.key == key,
            r.wf(),
    {
        let seq = key.compiled();
        TrieKey { seq, key }
    }

    pub fn is_empty(&self) -> (r: bool)
        ensures
            r == (self.seq@.len() == 0),
    {
        self.seq.len() == 0
    }

    /// The common prefix length of the two keys; whether this key sorts before
    /// the other at their first difference (or has none); and whether the keys
    /// are equal.
    pub fn lcp(&self, other: &Self) -> (r: (usize, bool, bool))
        ensures
            r.0 == lcp_spec(self.chars(), other.chars()),
            r.1 == !(r.0 < self.chars().len() && r.0 < other.chars().len() && other.chars()[r.0 as int] < self.chars()[r.0 as int]),
            r.2 == (self.chars() == other.chars()),
    {
        let w0 = self.key.key_chars();
        let w1 = other.key.key_chars();
        let w0l = w0.len();
        let w1l = w1.len();
        let mlen = if w0l < w1l { w0l } else { w1l };
        let mut lcp: usize = 0;
        let mut preceeding = true;
        proof {
            lemma_lcp(w0@, w1@);
        }
        while lcp < mlen && w0[lcp] == w1[lcp]
            invariant
                mlen <= w0@.len(),
                mlen <= w1@.len(),
                mlen == w0@.len() || mlen == w1@.len(),
                lcp <= mlen,
                forall|i: int| 0 <= i < lcp ==> w0@[i] == w1@[i],
                0 <= lcp_spec(w0@, w1@) <= w0@.len(),
                lcp_spec(w0@, w1@) <= w1@.len(),
                forall|i: int| 0 <= i < lcp_spec(w0@, w1@) ==> w0@[i] == w1@[i],
                lcp_spec(w0@, w1@) < w0@.len() && lcp_spec(w0@, w1@) < w1@.len() ==> w0@[lcp_spec(w0@, w1@)] != w1@[lcp_spec(w0@, w1@)],
            decreases mlen - lcp,
        {
            lcp = lcp + 1;
        }
        if lcp < mlen && w1[lcp] < w0[lcp] {
            preceeding = false;
        }
        let full_match = w0l == w1l && lcp == w0l;
        proof {
            if full_match {
                assert(w0@ =~= w1@);
            }
        }
        (lcp, preceeding, full_match)
    }
}

} // verus!
