//! Access-control keys with `*` wildcards, and permission flag sets.
use vstd::prelude::*;
use crate::key::{KeyPrefix, literal_segments, string_chars, string_slice};
use crate::matcher::{MatchType, StateSequence, lemma_segs_view_push, segs_view};
use crate::trie::{Merge, Trie};

verus! {

/// The wildcard marker.
pub const WILDCARD: char = '*';

/// A resource path pattern; `*` matches any run of characters.
#[derive(Debug, Clone, PartialEq)]
pub struct Acl {
    pub path: String,
}

impl Acl {
    pub fn new(path: &str) -> (r: Self)
        ensures
            r.path@ == path@,
    {
        Acl { path: path.to_owned() }
    }

    /// The pattern as text.
    pub fn to_string(&self) -> (r: String)
        ensures
            r@ == self.path@,
    {
        self.path.clone()
    }
}

/// The scan state of the glob compiler: segments emitted so far, the pending
/// characters, and the kind the next segment will have.
pub type GlobScan = (Seq<(MatchType, Seq<char>)>, Seq<char>, MatchType);

/// One character of the scan: a wildcard flushes the pending characters (if
/// any) and makes later segments wildcard runs; any other character is buffered.
pub open spec fn glob_step(acc: GlobScan, c: char) -> GlobScan {
    if c == WILDCARD {
        if acc.1.len() > 0 {
            (acc.0.push((acc.2, acc.1)), Seq::empty(), MatchType::AnyOr)
        } else {
            (acc.0, Seq::empty(), MatchType::AnyOr)
        }
    } else {
        (acc.0, acc.1.push(c), acc.2)
    }
}

/// The scan state after all of `s`.
pub open spec fn glob_scan(s: Seq<char>) -> GlobScan
    decreases s.len(),
{
    if s.len() == 0 {
        (Seq::empty(), Seq::empty(), MatchType::Literal)
    } else {
        glob_step(glob_scan(s.drop_last()), s.last())
    }
}

/// The compilation of a glob pattern: the scanned segments, then the pending
/// characters; a pattern that ends in a wildcard ends in an empty wildcard run.
pub open spec fn glob_segments(s: Seq<char>) -> Seq<(MatchType, Seq<char>)> {
    let st = glob_scan(s);
    if st.1.len() > 0 {
        st.0.push((st.2, st.1))
    } else if st.2 == MatchType::AnyOr {
        st.0.push((MatchType::AnyOr, Seq::empty()))
    } else {
        st.0
    }
}

/// A pattern without wildcards compiles as a literal key does: to one literal
/// segment holding all its characters.
pub proof fn lemma_glob_without_wildcard(s: Seq<char>)
    requires
        forall|i: int| 0 <= i < s.len() ==> s[i] != WILDCARD,
    ensures
        glob_segments(s) == literal_segments(s),
{
    lemma_glob_scan_without_wildcard(s);
    if s.len() > 0 {
        assert(glob_segments(s) =~= seq![(MatchType::Literal, s)]);
    } else {
        assert(glob_segments(s) =~= Seq::<(MatchType, Seq<char>)>::empty());
    }
}

proof fn lemma_glob_scan_without_wildcard(s: Seq<char>)
    requires
        forall|i: int| 0 <= i < s.len() ==> s[i] != WILDCARD,
    ensures
        glob_scan(s) == (Seq::<(MatchType, Seq<char>)>::empty(), s, MatchType::Literal),
    decreases s.len(),
{
    if s.len() > 0 {
        lemma_glob_scan_without_wildcard(s.drop_last());
        assert(s.drop_last().push(s.last()) =~= s);
    } else {
        assert(s =~= Seq::<char>::empty());
    }
}

impl KeyPrefix for Acl {
    open spec fn key_view(&self) -> Seq<char> {
        self.path@
    }

    open spec fn compiled_view(&self) -> Seq<(MatchType, Seq<char>)> {
        glob_segments(self.path@)
    }

    fn key_chars(&self) -> (r: Vec<char>) {
        string_chars(&self.path)
    }

    fn key_len(&self) -> (r: usize) {
        string_chars(&self.path).len()
    }

    fn empty() -> (r: Self) {
        Acl { path: String::new() }
    }

    fn new_from_key_prefix(&self, index: usize) -> (r: Self) {
        Acl { path: string_slice(&self.path, 0, index) }
    }

    fn new_from_postfix(&self, index: usize) -> (r: Self) {
        let n = string_chars(&self.path).len();
        Acl { path: string_slice(&self.path, index, n) }
    }

    fn compiled(&self) -> (r: Vec<StateSequence>) {
        let chars = string_chars(&self.path);
        let mut compiled_seq: Vec<StateSequence> = Vec::new();
        let mut buff: Vec<char> = Vec::new();
        let mut next_state = MatchType::Literal;
        let mut i: usize = 0;
        while i < chars.len()
            invariant
                chars@ == self.path@,
                i <= chars@.len(),
                (segs_view(compiled_seq@), buff@, next_state) == glob_scan(
                    chars@.subrange(0, i as int),
                ),
            decreases chars@.len() - i,
        {
            let ch = chars[i];
            proof {
                let s = chars@.subrange(0, i + 1);
                assert(s.drop_last() =~= chars@.subrange(0, i as int));
                assert(s.last() == ch);
            }
            if ch == WILDCARD {
                if buff.len() > 0 {
                    let seg = StateSequence { match_type: next_state, sequence: buff };
                    proof {
                        lemma_segs_view_push(compiled_seq@, seg);
                    }
                    compiled_seq.push(seg);
                }
                buff = Vec::new();
                next_state = MatchType::AnyOr;
                proof {
                    assert(buff@ =~= Seq::<char>::empty());
                }
            } else {
                buff.push(ch);
            }
            i = i + 1;
        }
        proof {
            assert(chars@.subrange(0, i as int) =~= self.path@);
        }
        if buff.len() > 0 {
            let seg = StateSequence { match_type: next_state, sequence: buff };
            proof {
                lemma_segs_view_push(compiled_seq@, seg);
            }
            compiled_seq.push(seg);
        } else if next_state == MatchType::AnyOr {
            let seg = StateSequence { match_type: MatchType::AnyOr, sequence: Vec::new() };
            proof {
                lemma_segs_view_push(compiled_seq@, seg);
                assert(seg.sequence@ =~= Seq::<char>::empty());
            }
            compiled_seq.push(seg);
        }
        proof {
            assert(segs_view(compiled_seq@).len() == compiled_seq@.len());
            if self.path@.len() == 0 {
                assert(glob_scan(self.path@) == (Seq::<(MatchType, Seq<char>)>::empty(), Seq::<char>::empty(), MatchType::Literal));
            }
        }
        compiled_seq
    }
}

/// A set of access permissions, one bit each.
#[derive(Debug, Clone, Copy, PartialEq, Eq, Structural)]
pub struct Permissions {
    pub bits: u8,
}

impl Permissions {
    pub const READ_BIT: u8 = 1;
    pub const WRITE_BIT: u8 = 2;
    pub const CREATE_BIT: u8 = 4;
    pub const DELETE_BIT: u8 = 8;

    pub fn read() -> (r: Self)
        ensures
            r.view_bits() == Self::READ_BIT,
    {
        Permissions { bits: Self::READ_BIT }
    }

    pub fn write() -> (r: Self)
        ensures
            r.view_bits() == Self::WRITE_BIT,
    {
        Permissions { bits: Self::WRITE_BIT }
    }

    pub fn create() -> (r: Self)
        ensures
            r.view_bits() == Self::CREATE_BIT,
    {
        Permissions { bits: Self::CREATE_BIT }
    }

    pub fn delete() -> (r: Self)
        ensures
            r.view_bits() == Self::DELETE_BIT,
    {
        Permissions { bits: Self::DELETE_BIT }
    }

    /// Read, write, create and delete together.
    pub fn owner() -> (r: Self)
        ensures
            r.view_bits() == 15,
    {
        Permissions { bits: 15 }
    }

    pub open spec fn view_bits(self) -> u8 {
        self.bits
    }

    /// The set with no permission.
    pub fn empty() -> (r: Self)
        ensures
            r.view_bits() == 0,
    {
        Permissions { bits: 0 }
    }

    /// The set with every permission.
    pub fn all() -> (r: Self)
        ensures
            r.view_bits() == 15,
    {
        Permissions { bits: 15 }
    }

    pub fn bits(&self) -> (r: u8)
        ensures
            r == self.view_bits(),
    {
        self.bits
    }

    /// Both sets together.
    pub fn union(self, other: Self) -> (r: Self)
        ensures
            r.view_bits() == self.view_bits() | other.view_bits(),
    {
        Permissions { bits: self.bits | other.bits }
    }

    /// Whether every permission of `other` is in this set.
    pub fn contains(&self, other: Self) -> (r: bool)
        ensures
            r == (self.view_bits() & other.view_bits() == other.view_bits()),
    {
        self.bits & other.bits == other.bits
    }
}

impl Merge for Permissions {
    open spec fn merge_spec(a: Self, b: Self) -> Self {
        Permissions { bits: a.bits | b.bits }
    }

    proof fn lemma_merge_associative(a: Self, b: Self, c: Self) {
        let (x, y, z) = (a.bits, b.bits, c.bits);
        assert(x | (y | z) == (x | y) | z) by (bit_vector);
    }

    fn merge(&self, other: &Self) -> (r: Self) {
        Permissions { bits: self.bits | other.bits }
    }
}

/// A trie of access rules.
pub type AclTrie = Trie<Acl, Permissions>;

} // verus!
