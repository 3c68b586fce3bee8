//! The trie container.
use vstd::prelude::*;
use crate::key::{KeyPrefix, TrieKey};
use crate::matcher::PushdownStateMachine;
use crate::iterator::{clones_prefix, lookup_spec};
use crate::literal::lemma_walk_literal;
use crate::node::{RFRNode, shared_below, descend, holds_clone, lemma_descend_value, path_key, valid_path};

verus! {

/// An associative combination of values, used to fold all matches of a lookup.
pub trait Merge: Sized {
    spec fn merge_spec(a: Self, b: Self) -> Self;

    /// The combination is associative.
    proof fn lemma_merge_associative(a: Self, b: Self, c: Self)
        ensures
            Self::merge_spec(a, Self::merge_spec(b, c)) == Self::merge_spec(Self::merge_spec(a, b), c),
    ;

    fn merge(&self, other: &Self) -> (r: Self)
        ensures
            r == Self::merge_spec(*self, *other),
    ;
}

/// The fold of `s` with `merge`, from the left; `None` for no values.
pub open spec fn merge_fold<V: Merge>(s: Seq<V>) -> Option<V>
    decreases s.len(),
{
    if s.len() == 0 {
        None
    } else {
        match merge_fold(s.drop_last()) {
            None => Some(s.last()),
            Some(a) => Some(V::merge_spec(a, s.last())),
        }
    }
}

/// A compressed prefix trie from keys to values.
pub struct Trie<K, V> {
    size: usize,
    node: RFRNode<K, V>,
}

impl<K: KeyPrefix + Clone, V: Clone> Clone for Trie<K, V> {
    fn clone(&self) -> Self {
        Trie { size: self.size, node: self.node.duplicate() }
    }
}

impl<K: KeyPrefix, V> Trie<K, V> {
    /// The root is well-formed and holds an empty key and no value; below it
    /// a node without a value has at least two children.
    pub closed spec fn wf(&self) -> bool {
        &&& self.node.wf()
        &&& shared_below(self.node)
        &&& self.node.key_chars().len() == 0
        &&& self.node.value is None
    }

    /// The number of keys stored.
    pub closed spec fn size_view(&self) -> nat {
        self.size as nat
    }

    /// The value stored under `k`.
    pub closed spec fn entry(&self, k: Seq<char>) -> Option<V> {
        self.node.get_rel(k)
    }

    /// The root node.
    pub closed spec fn root_node(&self) -> RFRNode<K, V> {
        self.node
    }

    /// What well-formedness says of the root: children ordered by distinct
    /// first characters all the way down, an empty key and no value at the
    /// root, and below it no value-less node with fewer than two children.
    pub proof fn lemma_wf_shape(&self)
        requires
            self.wf(),
        ensures
            self.root_node().wf(),
            shared_below(self.root_node()),
            self.root_node().key_chars().len() == 0,
            self.root_node().value is None,
    {
    }

    /// The values a lookup of `k` yields, in trie order.
    pub closed spec fn lookup_view(&self, k: Seq<char>) -> Seq<V> {
        lookup_spec(self.node, k)
    }

    /// `v` is a clone of the value stored under some key.
    pub open spec fn holds_clone_of(&self, v: V) -> bool
        where
            V: Clone,
    {
        exists|k: Seq<char>| k.len() > 0 && (#[trigger] self.entry(k)) is Some && cloned(self.entry(k)->0, v)
    }

    proof fn lemma_holds_clone_entry(&self, v: V)
        where
            V: Clone,
        requires
            self.wf(),
            holds_clone(self.node, v),
        ensures
            self.holds_clone_of(v),
    {
        let path = choose|path: Seq<int>|
            valid_path(self.node, path) && path.len() > 0 && (#[trigger] descend(self.node, path)).value is Some
                && cloned(descend(self.node, path).value->0, v);
        lemma_descend_value(self.node, path);
        let k = path_key(self.node, path);
        assert(self.entry(k) == descend(self.node, path).value);
    }

    /// `new` is `old` after storing `v` under the non-empty key `k`, which
    /// returned `r`: the value `k` held before. Only `k` changed; the size grew
    /// by one exactly where `k` was new.
    pub open spec fn inserted(old: Self, new: Self, k: Seq<char>, v: V, r: Option<V>) -> bool {
        &&& new.wf()
        &&& r == old.entry(k)
        &&& new.entry(k) == Some(v)
        &&& forall|k2: Seq<char>| k2.len() > 0 && k2 != k ==> #[trigger] new.entry(k2) == old.entry(k2)
        &&& r is None ==> new.size_view() == old.size_view() + 1
        &&& r is Some ==> new.size_view() == old.size_view()
    }

    /// An empty trie.
    pub fn new() -> (r: Self)
        ensures
            r.wf(),
            r.size_view() == 0,
            forall|k: Seq<char>| #[trigger] r.entry(k) is None,
    {
        Trie { size: 0, node: RFRNode::new() }
    }

    /// The number of keys stored.
    pub fn len(&self) -> (r: usize)
        ensures
            r == self.size_view(),
    {
        self.size
    }

    /// Stores `value` under `key`. Returns the value the key held before, or
    /// `None` where the key is new, in which case the size grows by one.
    pub fn insert(&mut self, key: K, value: V) -> (r: Option<V>)
        requires
            old(self).wf(),
            key.key_view().len() > 0,
            old(self).size_view() < usize::MAX,
        ensures
            Self::inserted(*old(self), *final(self), key.key_view(), value, r),
    {
        let ghost k = key.key_view();
        let result = self.node.insert(TrieKey::new(key), Some(value));
        if result.is_none() {
            self.size = self.size + 1;
        }
        proof {
            assert forall|k2: Seq<char>| k2.len() > 0 && k2 != k implies #[trigger] self.entry(k2) == old(self).entry(k2) by {
                assert(self.node.get_rel(k2) == old(self).node.get_rel(k2));
            }
            assert(self.node.get_rel(k) == Some(value));
        }
        result
    }

    /// The first value, in trie order, whose key matches `key`: a clone of a
    /// stored value.
    pub fn get<M: PushdownStateMachine>(&self, key: &K) -> (r: Option<V>)
        where
            V: Clone,
        requires
            self.wf(),
        ensures
            r is None <==> self.lookup_view(key.key_view()).len() == 0,
            r is Some ==> cloned(self.lookup_view(key.key_view())[0], r->0),
            (forall|a: V, b: V| cloned(a, b) ==> a == b) ==> r == (if self.lookup_view(key.key_view()).len() == 0 {
                None
            } else {
                Some(self.lookup_view(key.key_view())[0])
            }),
            r is Some ==> self.holds_clone_of(r->0),
    {
        let r = self.node.get::<M>(key);
        proof {
            if r is Some {
                self.lemma_holds_clone_entry(r->0);
            }
        }
        r
    }

    /// All values whose keys match `key`, combined with `merge` in trie order;
    /// `None` where no key matches.
    pub fn get_merge<M: PushdownStateMachine>(&self, key: &K) -> (r: Option<V>)
        where
            V: Clone + Merge,
        requires
            self.wf(),
        ensures
            exists|s: Seq<V>|
                r == merge_fold(s) && s.len() == self.lookup_view(key.key_view()).len() && clones_prefix(
                    s,
                    self.lookup_view(key.key_view()),
                ) && forall|i: int| 0 <= i < s.len() ==> self.holds_clone_of(#[trigger] s[i]),
            (forall|a: V, b: V| cloned(a, b) ==> a == b) ==> r == merge_fold(self.lookup_view(key.key_view())),
    {
        let mut it = self.node.lookup::<M>(key);
        let r = it.merge_rest();
        proof {
            let s = it.produced();
            it.lemma_produced_stored();
            it.lemma_produced_lookup();
            if forall|a: V, b: V| cloned(a, b) ==> a == b {
                assert(s =~= self.lookup_view(key.key_view()));
            }
            assert(s.subrange(0, s.len() as int) =~= s);
            assert forall|i: int| 0 <= i < s.len() implies self.holds_clone_of(#[trigger] s[i]) by {
                assert(holds_clone(it.root(), s[i]));
                self.lemma_holds_clone_entry(s[i]);
            }
        }
        r
    }

    /// The root's children, in order.
    pub fn iter(&self) -> (r: std::slice::Iter<'_, Box<RFRNode<K, V>>>) {
        self.node.children.iter()
    }

    /// Visits every stored node in trie order, with its depth (from 1), its
    /// relative key and its value.
    pub fn foreach<F>(&self, f: F)
        where
            F: Fn((usize, &K, &Option<V>)),
        requires
            forall|t: (usize, &K, &Option<V>)| #[trigger] f.requires((t,)),
    {
        self.node.foreach(1, &f);
    }
}

/// Storing a key and then reading its entry gives the stored value back.
pub proof fn lemma_insert_then_entry<K: KeyPrefix, V>(t0: Trie<K, V>, t1: Trie<K, V>, k: Seq<char>, v: V, r: Option<V>)
    requires
        Trie::inserted(t0, t1, k, v, r),
    ensures
        t1.entry(k) == Some(v),
{
}

/// Storing the same key twice keeps the size of the first insertion, hands
/// back the first value, and leaves the second value stored.
pub proof fn lemma_replacement<K: KeyPrefix, V>(
    t0: Trie<K, V>,
    t1: Trie<K, V>,
    t2: Trie<K, V>,
    k: Seq<char>,
    v1: V,
    v2: V,
    r1: Option<V>,
    r2: Option<V>,
)
    requires
        Trie::inserted(t0, t1, k, v1, r1),
        Trie::inserted(t1, t2, k, v2, r2),
    ensures
        t2.size_view() == t1.size_view(),
        r2 == Some(v1),
        t2.entry(k) == Some(v2),
{
}

/// Folding a concatenation is merging the folds of its parts: by
/// associativity, the combined result of a lookup does not depend on how its
/// matches are grouped.
pub proof fn lemma_merge_fold_concat<V: Merge>(s1: Seq<V>, s2: Seq<V>)
    ensures
        merge_fold(s1 + s2) == match (merge_fold(s1), merge_fold(s2)) {
            (None, b) => b,
            (a, None) => a,
            (Some(a), Some(b)) => Some(V::merge_spec(a, b)),
        },
    decreases s2.len(),
{
    if s2.len() == 0 {
        assert(s1 + s2 =~= s1);
    } else {
        let s = s1 + s2;
        assert(s.drop_last() =~= s1 + s2.drop_last());
        assert(s.last() == s2.last());
        lemma_merge_fold_concat(s1, s2.drop_last());
        match (merge_fold(s1), merge_fold(s2.drop_last())) {
            (Some(a), Some(b)) => {
                V::lemma_merge_associative(a, b, s2.last());
            },
            _ => {},
        }
    }
}

/// In a trie of literal keys, the lookup of a stored key yields the value
/// stored under it first: `get` of that key returns a clone of that value.
pub proof fn lemma_entry_lookup<V>(t: Trie<String, V>, k: Seq<char>, v: V)
    requires
        t.wf(),
        k.len() > 0,
        t.entry(k) == Some(v),
    ensures
        t.lookup_view(k).len() > 0,
        t.lookup_view(k)[0] == v,
{
    assert(k.subrange(0, k.len() as int) =~= k);
    lemma_walk_literal(t.node, None, 0, k, v);
}

/// Storing `v` under a key of a trie of literal keys, then looking that key
/// up, yields `v` first; storing it again with `v2` makes the lookup yield
/// `v2` first, and leaves the size as it was.
pub proof fn lemma_roundtrip<V>(
    t0: Trie<String, V>,
    t1: Trie<String, V>,
    t2: Trie<String, V>,
    k: Seq<char>,
    v: V,
    v2: V,
    r1: Option<V>,
    r2: Option<V>,
)
    requires
        k.len() > 0,
        Trie::inserted(t0, t1, k, v, r1),
        Trie::inserted(t1, t2, k, v2, r2),
    ensures
        t1.lookup_view(k).len() > 0,
        t1.lookup_view(k)[0] == v,
        t2.lookup_view(k).len() > 0,
        t2.lookup_view(k)[0] == v2,
        t2.size_view() == t1.size_view(),
{
    lemma_entry_lookup(t1, k, v);
    lemma_entry_lookup(t2, k, v2);
}

} // verus!
