//! Trie nodes and the insertion / splitting algorithm.
use vstd::prelude::*;
use crate::iterator::{TrieIterator, lookup_spec};
use crate::key::{KeyPrefix, TrieKey, lcp_spec, lemma_lcp};
use crate::matcher::PushdownStateMachine;

verus! {

broadcast use vstd::std_specs::vec::axiom_vec_decreases_to_view;

/// A trie node: a key fragment relative to its parent, an optional value, and
/// the children in the order of their first characters.
pub struct RFRNode<K, V> {
    pub node_key: TrieKey<K>,
    pub value: Option<V>,
    pub children: Vec<Box<RFRNode<K, V>>>,
}

impl<K: KeyPrefix, V> RFRNode<K, V> {
    /// The node's relative key.
    pub open spec fn key_chars(&self) -> Seq<char> {
        self.node_key.key.key_view()
    }

    /// The first character of the node's relative key, as a number.
    pub open spec fn first(&self) -> int {
        self.key_chars()[0] as int
    }

    /// Children have non-empty keys and strictly increasing first characters,
    /// every key's segments are its compilation, and the same holds below.
    pub open spec fn wf(&self) -> bool
        decreases self,
    {
        &&& self.node_key.wf()
        &&& forall|i: int|
            0 <= i < self.children@.len() ==> (#[trigger] self.children@[i]).key_chars().len() > 0
                && self.children@[i].wf()
        &&& forall|i: int, j: int|
            0 <= i < j < self.children@.len() ==> (#[trigger] self.children@[i]).first()
                < (#[trigger] self.children@[j]).first()
    }
}

/// `p` is a prefix of `k`.
pub open spec fn is_prefix(p: Seq<char>, k: Seq<char>) -> bool {
    p.len() <= k.len() && k.subrange(0, p.len() as int) == p
}

/// The child `c` leads to key `k`: its non-empty key is a prefix of `k`.
pub open spec fn child_matches<K: KeyPrefix, V>(c: RFRNode<K, V>, k: Seq<char>) -> bool {
    c.key_chars().len() > 0 && is_prefix(c.key_chars(), k)
}

/// The value stored under `k` through the child `c`: its own value where its
/// key is `k`, else what is stored below it under the rest of `k`.
pub open spec fn via<K: KeyPrefix, V>(c: RFRNode<K, V>, k: Seq<char>) -> Option<V> {
    if child_matches(c, k) {
        if k.len() == c.key_chars().len() {
            c.value
        } else {
            c.get_rel(k.subrange(c.key_chars().len() as int, k.len() as int))
        }
    } else {
        None
    }
}

/// Below `n`, a node without a value only shares a prefix: it has at least
/// two children.
pub open spec fn shared_below<K: KeyPrefix, V>(n: RFRNode<K, V>) -> bool
    decreases n,
{
    forall|i: int|
        0 <= i < n.children@.len() ==> ((#[trigger] n.children@[i]).value is None
            ==> n.children@[i].children@.len() >= 2) && shared_below(*n.children@[i])
}

/// Replacing one child by another whose shape meets the same condition keeps
/// the condition.
pub proof fn lemma_shared_replaced<K: KeyPrefix, V>(n: RFRNode<K, V>, prev: RFRNode<K, V>, index: int)
    requires
        shared_below(prev),
        0 <= index < prev.children@.len(),
        n.children@.len() == prev.children@.len(),
        forall|i: int| 0 <= i < n.children@.len() && i != index ==> n.children@[i] == prev.children@[i],
        n.children@[index].value is None ==> n.children@[index].children@.len() >= 2,
        shared_below(*n.children@[index]),
    ensures
        shared_below(n),
{
    assert forall|i: int| 0 <= i < n.children@.len() implies ((#[trigger] n.children@[i]).value is None
        ==> n.children@[i].children@.len() >= 2) && shared_below(*n.children@[i]) by {
        if i != index {
            assert(n.children@[i] == prev.children@[i]);
        }
    }
}

/// Two sequences that agree before `n` and from `n` on are equal.
pub proof fn lemma_split_eq(a: Seq<char>, b: Seq<char>, n: int)
    requires
        0 <= n <= a.len(),
        n <= b.len(),
        a.subrange(0, n) == b.subrange(0, n),
        a.subrange(n, a.len() as int) == b.subrange(n, b.len() as int),
    ensures
        a == b,
{
    let ar = a.subrange(n, a.len() as int);
    let br = b.subrange(n, b.len() as int);
    assert(ar.len() == a.len() - n);
    assert(br.len() == b.len() - n);
    assert(ar.len() == br.len());
    assert(a.len() == b.len());
    assert forall|i: int| 0 <= i < a.len() implies a[i] == b[i] by {
        if i < n {
            assert(a[i] == a.subrange(0, n)[i]);
            assert(b[i] == b.subrange(0, n)[i]);
        } else {
            assert(a[i] == a.subrange(n, a.len() as int)[i - n]);
            assert(b[i] == b.subrange(n, b.len() as int)[i - n]);
        }
    }
    assert(a =~= b);
}

/// For a key `a` that starts with `p`, and a `k` that starts with `p` too:
/// `a` is a prefix of `k` exactly when the rest of `a` is a prefix of the rest
/// of `k`, and then what follows `a` in `k` is what follows it in the rest.
pub proof fn lemma_prefix_rest(a: Seq<char>, k: Seq<char>, n: int)
    requires
        0 <= n <= a.len(),
        n <= k.len(),
        a.subrange(0, n) == k.subrange(0, n),
    ensures
        is_prefix(a, k) <==> is_prefix(a.subrange(n, a.len() as int), k.subrange(n, k.len() as int)),
        is_prefix(a, k) ==> k.subrange(a.len() as int, k.len() as int) == k.subrange(n, k.len() as int).subrange(
            a.len() - n,
            k.len() - n,
        ),
{
    let ar = a.subrange(n, a.len() as int);
    let kr = k.subrange(n, k.len() as int);
    if is_prefix(a, k) {
        assert(kr.subrange(0, ar.len() as int) =~= ar) by {
            assert forall|i: int| 0 <= i < ar.len() implies kr.subrange(0, ar.len() as int)[i] == ar[i] by {
                assert(k.subrange(0, a.len() as int)[n + i] == a[n + i]);
            }
        }
        assert(k.subrange(a.len() as int, k.len() as int) =~= kr.subrange(a.len() - n, k.len() - n));
    }
    if is_prefix(ar, kr) {
        assert(k.subrange(0, a.len() as int) =~= a) by {
            assert forall|i: int| 0 <= i < a.len() implies k.subrange(0, a.len() as int)[i] == a[i] by {
                if i < n {
                    assert(a.subrange(0, n)[i] == k.subrange(0, n)[i]);
                } else {
                    assert(kr.subrange(0, ar.len() as int)[i - n] == ar[i - n]);
                }
            }
        }
    }
}

/// A prefix as long as the sequence is the sequence itself; every sequence is
/// a prefix of itself.
pub proof fn lemma_prefix_same_len(a: Seq<char>, k: Seq<char>)
    ensures
        is_prefix(a, a),
        is_prefix(a, k) && a.len() == k.len() ==> a == k,
{
    assert(a.subrange(0, a.len() as int) =~= a);
    assert(k.subrange(0, k.len() as int) =~= k);
}

/// The node reached from `n` by following the child indices of `path`.
pub open spec fn descend<K: KeyPrefix, V>(n: RFRNode<K, V>, path: Seq<int>) -> RFRNode<K, V>
    decreases path.len(),
{
    if path.len() == 0 {
        n
    } else if 0 <= path[0] < n.children@.len() {
        descend(*n.children@[path[0]], path.drop_first())
    } else {
        n
    }
}

/// Every index of `path` names a child on the way down from `n`.
pub open spec fn valid_path<K: KeyPrefix, V>(n: RFRNode<K, V>, path: Seq<int>) -> bool
    decreases path.len(),
{
    path.len() == 0 || (0 <= path[0] < n.children@.len() && valid_path(
        *n.children@[path[0]],
        path.drop_first(),
    ))
}

/// The key spelled by the relative keys along `path`, below `n`.
pub open spec fn path_key<K: KeyPrefix, V>(n: RFRNode<K, V>, path: Seq<int>) -> Seq<char>
    decreases path.len(),
{
    if path.len() == 0 {
        Seq::empty()
    } else if 0 <= path[0] < n.children@.len() {
        n.children@[path[0]].key_chars() + path_key(*n.children@[path[0]], path.drop_first())
    } else {
        Seq::empty()
    }
}

/// `n` is a node of the tree below `root`.
pub open spec fn in_tree<K: KeyPrefix, V>(root: RFRNode<K, V>, n: RFRNode<K, V>) -> bool {
    exists|path: Seq<int>| valid_path(root, path) && #[trigger] descend(root, path) == n
}

/// Some node below `root` holds a value of which `v` is a clone.
pub open spec fn holds_clone<K: KeyPrefix, V: Clone>(root: RFRNode<K, V>, v: V) -> bool {
    exists|path: Seq<int>|
        valid_path(root, path) && path.len() > 0 && (#[trigger] descend(root, path)).value is Some
            && cloned(descend(root, path).value->0, v)
}

/// Going one child further extends the path by that child's index.
pub proof fn lemma_descend_push<K: KeyPrefix, V>(n: RFRNode<K, V>, path: Seq<int>, i: int)
    requires
        valid_path(n, path),
        0 <= i < descend(n, path).children@.len(),
    ensures
        valid_path(n, path.push(i)),
        descend(n, path.push(i)) == *descend(n, path).children@[i],
    decreases path.len(),
{
    let pp = path.push(i);
    if path.len() > 0 {
        assert(pp[0] == path[0]);
        assert(pp.drop_first() =~= path.drop_first().push(i));
        lemma_descend_push(*n.children@[path[0]], path.drop_first(), i);
    } else {
        assert(pp[0] == i);
        assert(pp.drop_first() =~= Seq::<int>::empty());
        assert(descend(*n.children@[i], pp.drop_first()) == *n.children@[i]);
        assert(valid_path(*n.children@[i], pp.drop_first()));
    }
}

/// In a well-formed tree every node is well-formed, and the node at the end of
/// a non-empty path holds what is stored under the key along the path.
pub proof fn lemma_descend_value<K: KeyPrefix, V>(n: RFRNode<K, V>, path: Seq<int>)
    requires
        n.wf(),
        valid_path(n, path),
    ensures
        descend(n, path).wf(),
        path.len() > 0 ==> path_key(n, path).len() > 0 && n.get_rel(path_key(n, path)) == descend(
            n,
            path,
        ).value,
    decreases path.len(),
{
    if path.len() > 0 {
        let i = path[0];
        let c = *n.children@[i];
        let rest = path.drop_first();
        assert(c.wf() && c.key_chars().len() > 0);
        lemma_descend_value(c, rest);
        let key = path_key(n, path);
        let ck = c.key_chars();
        assert(key == ck + path_key(c, rest));
        assert(key.subrange(0, ck.len() as int) =~= ck);
        assert(key[0] == ck[0]);
        n.lemma_get_rel_by_first(i, key);
        if rest.len() == 0 {
            assert(key =~= ck);
        } else {
            assert(key.subrange(ck.len() as int, key.len() as int) =~= path_key(c, rest));
        }
    }
}

impl<K: KeyPrefix, V> RFRNode<K, V> {
    /// The value stored under the key `k`, relative to this node.
    pub open spec fn get_rel(&self, k: Seq<char>) -> Option<V>
        decreases self,
    {
        if exists|i: int| 0 <= i < self.children@.len() && child_matches(*self.children@[i], k) {
            let i = choose|i: int| 0 <= i < self.children@.len() && child_matches(*self.children@[i], k);
            let c = *self.children@[i];
            if k.len() == c.key_chars().len() {
                c.value
            } else {
                c.get_rel(k.subrange(c.key_chars().len() as int, k.len() as int))
            }
        } else {
            None
        }
    }

    /// In a well-formed node, the child whose first character is that of `k`
    /// decides what is stored under `k`.
    pub proof fn lemma_get_rel_by_first(&self, j: int, k: Seq<char>)
        requires
            self.wf(),
            0 <= j < self.children@.len(),
            k.len() > 0,
            k[0] as int == self.children@[j].first(),
        ensures
            self.get_rel(k) == via(*self.children@[j], k),
    {
        let cj = *self.children@[j];
        assert(cj.wf() && cj.key_chars().len() > 0);
        if exists|i: int| 0 <= i < self.children@.len() && child_matches(*self.children@[i], k) {
            let i = choose|i: int| 0 <= i < self.children@.len() && child_matches(*self.children@[i], k);
            let ci = *self.children@[i];
            assert(ci.key_chars()[0] == k.subrange(0, ci.key_chars().len() as int)[0]);
            if i != j {
                if i < j {
                    assert(self.children@[i].first() < self.children@[j].first());
                } else {
                    assert(self.children@[j].first() < self.children@[i].first());
                }
            }
        } else {
            assert(!child_matches(cj, k));
        }
    }

    /// Where no child's first character is that of `k`, nothing is stored under `k`.
    pub proof fn lemma_get_rel_none(&self, k: Seq<char>)
        requires
            self.wf(),
            k.len() > 0,
            forall|j: int| 0 <= j < self.children@.len() ==> self.children@[j].first() != k[0] as int,
        ensures
            self.get_rel(k) is None,
    {
        if exists|i: int| 0 <= i < self.children@.len() && child_matches(*self.children@[i], k) {
            let i = choose|i: int| 0 <= i < self.children@.len() && child_matches(*self.children@[i], k);
            let ci = *self.children@[i];
            assert(ci.key_chars()[0] == k.subrange(0, ci.key_chars().len() as int)[0]);
            assert(self.children@[i].first() == k[0] as int);
        }
    }

    /// Replacing one child by another with the same first character changes
    /// nothing stored under keys that start otherwise.
    pub proof fn lemma_get_rel_replaced(&self, prev: &Self, index: int, k: Seq<char>)
        requires
            prev.wf(),
            self.wf(),
            0 <= index < prev.children@.len(),
            self.children@.len() == prev.children@.len(),
            forall|i: int| 0 <= i < self.children@.len() && i != index ==> self.children@[i] == prev.children@[i],
            self.children@[index].first() == prev.children@[index].first(),
            k.len() > 0,
            k[0] as int != prev.children@[index].first(),
        ensures
            self.get_rel(k) == prev.get_rel(k),
    {
        if exists|j: int| 0 <= j < prev.children@.len() && prev.children@[j].first() == k[0] as int {
            let j = choose|j: int| 0 <= j < prev.children@.len() && prev.children@[j].first() == k[0] as int;
            prev.lemma_get_rel_by_first(j, k);
            self.lemma_get_rel_by_first(j, k);
        } else {
            prev.lemma_get_rel_none(k);
            self.lemma_get_rel_none(k);
        }
    }

    /// Inserting a child changes nothing stored under keys that start with
    /// another character than the new child's.
    pub proof fn lemma_get_rel_inserted(&self, prev: &Self, index: int, k: Seq<char>)
        requires
            prev.wf(),
            self.wf(),
            0 <= index <= prev.children@.len(),
            self.children@ == prev.children@.insert(index, self.children@[index]),
            k.len() > 0,
            k[0] as int != self.children@[index].first(),
        ensures
            self.get_rel(k) == prev.get_rel(k),
    {
        if exists|j: int| 0 <= j < prev.children@.len() && prev.children@[j].first() == k[0] as int {
            let j = choose|j: int| 0 <= j < prev.children@.len() && prev.children@[j].first() == k[0] as int;
            prev.lemma_get_rel_by_first(j, k);
            if j < index {
                assert(self.children@[j] == prev.children@[j]);
                self.lemma_get_rel_by_first(j, k);
            } else {
                assert(self.children@[j + 1] == prev.children@[j]);
                self.lemma_get_rel_by_first(j + 1, k);
            }
        } else {
            prev.lemma_get_rel_none(k);
            assert forall|j: int| 0 <= j < self.children@.len() implies self.children@[j].first() != k[0] as int by {
                if j < index {
                    assert(self.children@[j] == prev.children@[j]);
                } else if j > index {
                    assert(self.children@[j] == prev.children@[j - 1]);
                }
            }
            self.lemma_get_rel_none(k);
        }
    }

    /// The split of child `o` at `lcp` into `aux` (key `o`'s first `lcp`
    /// characters, one child `cprime` with the rest of `o`), followed by the
    /// insertion of the rest of `kc`, stores `value` under `kc` and keeps the
    /// rest of what `o` held.
    proof fn lemma_split_case(
        &self,
        o: Self,
        cprime: Self,
        a_init: Self,
        aux: Self,
        kc: Seq<char>,
        lcp: int,
        k: Seq<char>,
        value: Option<V>,
    )
        requires
            o.wf(),
            0 < lcp < o.key_chars().len(),
            lcp <= kc.len(),
            kc.subrange(0, lcp) == o.key_chars().subrange(0, lcp),
            lcp < kc.len() ==> kc[lcp] != o.key_chars()[lcp],
            cprime.key_chars() == o.key_chars().subrange(lcp, o.key_chars().len() as int),
            cprime.value == o.value,
            cprime.children == o.children,
            cprime.wf(),
            a_init.wf(),
            a_init.key_chars() == o.key_chars().subrange(0, lcp),
            a_init.value is None,
            a_init.children@.len() == 1,
            *a_init.children@[0] == cprime,
            aux.key_chars() == a_init.key_chars(),
            kc.len() == lcp ==> aux.value == value && aux.children == a_init.children,
            kc.len() > lcp ==> aux.value is None,
            kc.len() > lcp ==> (forall|q: Seq<char>|
                q.len() > 0 ==> #[trigger] aux.get_rel(q) == (if q == kc.subrange(lcp, kc.len() as int) {
                    value
                } else {
                    a_init.get_rel(q)
                })),
            k.len() > 0,
        ensures
            k == kc ==> via(aux, k) == value,
            k != kc ==> via(aux, k) == via(o, k),
    {
        let ck = o.key_chars();
        let p = ck.subrange(0, lcp);
        lemma_prefix_same_len(p, k);
        lemma_prefix_same_len(kc, k);
        lemma_prefix_same_len(ck, k);
        if child_matches(o, k) {
            assert(k.subrange(0, lcp) =~= ck.subrange(0, lcp)) by {
                assert forall|i: int| 0 <= i < lcp implies k.subrange(0, lcp)[i] == ck[i] by {
                    assert(k.subrange(0, ck.len() as int)[i] == ck[i]);
                }
            }
        }
        if !is_prefix(p, k) {
            assert(!child_matches(o, k));
            if k == kc {
                assert(false);
            }
        } else if k.len() == lcp {
            assert(k == p);
            if kc.len() == lcp {
                lemma_prefix_same_len(p, kc);
            }
        } else {
            let q = k.subrange(lcp, k.len() as int);
            assert(aux.key_chars().len() == lcp);
            if kc.len() == lcp {
                aux.lemma_get_rel_children(&a_init, q);
                assert(q != kc.subrange(lcp, kc.len() as int));
                if k == kc {
                    assert(false);
                }
            }
            assert(cprime.key_chars().len() > 0);
            if q[0] as int == cprime.first() {
                a_init.lemma_get_rel_by_first(0, q);
            } else {
                a_init.lemma_get_rel_none(q);
                if child_matches(cprime, q) {
                    assert(q.subrange(0, cprime.key_chars().len() as int)[0] == q[0]);
                }
            }
            assert(a_init.get_rel(q) == via(cprime, q));
            lemma_prefix_rest(ck, k, lcp);
            if child_matches(o, k) && k.len() != ck.len() {
                let rest = k.subrange(ck.len() as int, k.len() as int);
                cprime.lemma_get_rel_children(&o, rest);
            }
            assert(via(cprime, q) == via(o, k));
            if kc.len() > lcp {
                if q == kc.subrange(lcp, kc.len() as int) {
                    lemma_split_eq(k, kc, lcp);
                }
            }
        }
    }

    /// What is stored below a node depends on its children alone.
    pub proof fn lemma_get_rel_children(&self, other: &Self, k: Seq<char>)
        requires
            self.children@ == other.children@,
        ensures
            self.get_rel(k) == other.get_rel(k),
    {
    }
}

impl<K: KeyPrefix + Clone, V: Clone> RFRNode<K, V> {
    /// A copy of the subtree: keys, values and children cloned.
    pub fn duplicate(&self) -> (r: Self)
        ensures
            r.children@.len() == self.children@.len(),
        decreases self,
    {
        let mut children: Vec<Box<RFRNode<K, V>>> = Vec::new();
        let mut i: usize = 0;
        while i < self.children.len()
            invariant
                i <= self.children@.len(),
                children@.len() == i,
            decreases self.children@.len() - i,
        {
            let c: &RFRNode<K, V> = &self.children[i];
            children.push(Box::new(c.duplicate()));
            i = i + 1;
        }
        RFRNode { node_key: self.node_key.clone(), value: self.value.clone(), children }
    }
}

impl<K: KeyPrefix + Clone, V: Clone> Clone for RFRNode<K, V> {
    fn clone(&self) -> Self {
        self.duplicate()
    }
}

impl<K: KeyPrefix, V> RFRNode<K, V> {
    /// The root: an empty key, no value, no children.
    pub fn new() -> (r: Self)
        ensures
            r.wf(),
            r.key_chars().len() == 0,
            r.value is None,
            r.children@.len() == 0,
            forall|k: Seq<char>| #[trigger] r.get_rel(k) is None,
    {
        RFRNode { node_key: TrieKey::new(K::empty()), value: None, children: Vec::new() }
    }

    /// A node that only shares a prefix: no value, no children.
    pub fn new_aux(node_key: TrieKey<K>) -> (r: Self)
        ensures
            r.node_key == node_key,
            r.value is None,
            r.children@.len() == 0,
    {
        RFRNode { node_key, value: None, children: Vec::new() }
    }

    /// A leaf holding `value`.
    pub fn new_leaf_with_prefix(node_key: TrieKey<K>, value: V) -> (r: Self)
        ensures
            r.node_key == node_key,
            r.value == Some(value),
            r.children@.len() == 0,
    {
        RFRNode { node_key, value: Some(value), children: Vec::new() }
    }

    /// Drops the first `prefix_len` characters of the node's key.
    pub fn strip_prefix(&mut self, prefix_len: usize)
        requires
            prefix_len <= old(self).key_chars().len(),
        ensures
            final(self).key_chars() == old(self).key_chars().subrange(
                prefix_len as int,
                old(self).key_chars().len() as int,
            ),
            final(self).node_key.wf(),
            final(self).value == old(self).value,
            final(self).children == old(self).children,
    {
        self.node_key = TrieKey::new(self.node_key.key.new_from_postfix(prefix_len));
    }

    /// Stores `value` under `key`, relative to this node. Returns the value the
    /// key held before, or `None` where the key is new.
    #[verifier::rlimit(100)]
    pub fn insert(&mut self, key: TrieKey<K>, value: Option<V>) -> (r: Option<V>)
        requires
            old(self).wf(),
            key.wf(),
            key.chars().len() > 0,
        ensures
            final(self).wf(),
            final(self).node_key == old(self).node_key,
            final(self).value == old(self).value,
            final(self).children@.len() >= old(self).children@.len(),
            (forall|j: int| 0 <= j < old(self).children@.len() ==> old(self).children@[j].first() != key.chars()[0] as int)
                ==> final(self).children@.len() == old(self).children@.len() + 1,
            value is Some && shared_below(*old(self)) ==> shared_below(*final(self)),
            r == old(self).get_rel(key.chars()),
            forall|k: Seq<char>|
                k.len() > 0 ==> #[trigger] final(self).get_rel(k) == if k == key.chars() {
                    value
                } else {
                    old(self).get_rel(k)
                },
        decreases key.chars().len(),
    {
        let n = self.children.len();
        let mut index: usize = 0;
        let mut found = false;
        let mut lcp: usize = 0;
        let mut full_match = false;
        while index < n
            invariant_except_break
                !found,
            invariant
                n == self.children@.len(),
                key.chars().len() > 0,
                *self == *old(self),
                self.wf(),
                index <= n,
                forall|j: int| 0 <= j < index ==> (#[trigger] self.children@[j]).first() < key.chars()[0] as int,
            ensures
                found ==> index < n && lcp > 0 && lcp == lcp_spec(key.chars(), self.children@[index as int].key_chars())
                    && full_match == (key.chars() == self.children@[index as int].key_chars()),
                !found && index < n ==> self.children@[index as int].first() > key.chars()[0] as int,
            decreases n - index,
        {
            let (item_lcp, item_is_preceeding, item_is_full_match) = key.lcp(&self.children[index].node_key);
            proof {
                let c = self.children@[index as int];
                assert(c.wf());
                lemma_lcp(key.chars(), c.key_chars());
                assert(c.key_chars().len() > 0);
                assert(c.key_chars() == self.children[index as int].node_key.key.key_view());
                if item_lcp == 0 {
                    assert(key.chars()[0] != c.key_chars()[0]);
                    assert((key.chars()[0] as int) != (c.key_chars()[0] as int));
                }
            }
            if item_lcp > 0 {
                found = true;
                lcp = item_lcp;
                full_match = item_is_full_match;
                break;
            }
            if item_is_preceeding {
                break;
            }
            index = index + 1;
        }
        if found {
            let mut child = *self.children.remove(index);
            proof {
                assert(old(self).children@[index as int] == child);
                assert(child.wf());
                lemma_lcp(key.chars(), child.key_chars());
            }
            let child_len = child.node_key.key.key_len();
            let ghost o = child;
            let ghost kc = key.chars();
            let ghost ck = o.key_chars();
            proof {
                assert(kc[0] == ck[0]);
                old(self).lemma_get_rel_by_first(index as int, kc);
                lemma_prefix_same_len(kc, kc);
                lemma_prefix_same_len(ck, ck);
            }
            if full_match {
                let previous = child.value;
                child.value = value;
                self.children.insert(index, Box::new(child));
                proof {
                    assert(child.wf());
                    self.lemma_wf_children_replaced(old(self), index as int);
                    if value is Some && shared_below(*old(self)) {
                        assert(shared_below(o));
                        lemma_shared_replaced(*self, *old(self), index as int);
                    }
                    assert forall|k: Seq<char>| k.len() > 0 implies #[trigger] self.get_rel(k) == if k == kc {
                        value
                    } else {
                        old(self).get_rel(k)
                    } by {
                        if k[0] as int != o.first() {
                            self.lemma_get_rel_replaced(old(self), index as int, k);
                        } else {
                            old(self).lemma_get_rel_by_first(index as int, k);
                            self.lemma_get_rel_by_first(index as int, k);
                            lemma_prefix_same_len(ck, k);
                            if child_matches(o, k) && k.len() != ck.len() {
                                child.lemma_get_rel_children(&o, k.subrange(ck.len() as int, k.len() as int));
                            }
                        }
                    }
                }
                previous
            } else if lcp == child_len {
                proof {
                    if key.chars().len() == child_len {
                        assert(key.chars() =~= child.key_chars());
                    }
                }
                let postfix = key.key.new_from_postfix(lcp);
                let result = child.insert(TrieKey::new(postfix), value);
                self.children.insert(index, Box::new(child));
                proof {
                    self.lemma_wf_children_replaced(old(self), index as int);
                    if value is Some && shared_below(*old(self)) {
                        assert(shared_below(o));
                        assert(o.value is None ==> o.children@.len() >= 2);
                        lemma_shared_replaced(*self, *old(self), index as int);
                    }
                    assert(kc.subrange(0, lcp as int) =~= ck);
                    assert forall|k: Seq<char>| k.len() > 0 implies #[trigger] self.get_rel(k) == if k == kc {
                        value
                    } else {
                        old(self).get_rel(k)
                    } by {
                        if k[0] as int != o.first() {
                            self.lemma_get_rel_replaced(old(self), index as int, k);
                        } else {
                            old(self).lemma_get_rel_by_first(index as int, k);
                            self.lemma_get_rel_by_first(index as int, k);
                            lemma_prefix_same_len(ck, k);
                            if child_matches(o, k) && k.len() != ck.len() {
                                let rest = k.subrange(ck.len() as int, k.len() as int);
                                if rest == postfix.key_view() {
                                    lemma_split_eq(k, kc, lcp as int);
                                }
                            }
                        }
                    }
                }
                result
            } else {
                let common_prefix = child.node_key.key.new_from_key_prefix(lcp);
                let child_postfix = child.node_key.key.new_from_postfix(lcp);
                let new_postfix = key.key.new_from_postfix(lcp);
                let new_postfix_len = new_postfix.key_len();
                let ghost npost = new_postfix.key_view();
                child.node_key = TrieKey::new(child_postfix);
                let ghost cprime = child;
                let mut aux = RFRNode::new_aux(TrieKey::new(common_prefix));
                aux.children.push(Box::new(child));
                proof {
                    assert(child.wf());
                    assert(aux.children@[0] == child);
                    assert(aux.wf());
                    if value is Some && shared_below(*old(self)) {
                        assert(shared_below(o));
                        assert(o.value is None ==> o.children@.len() >= 2);
                        assert(child.children == o.children);
                        assert(shared_below(child));
                        assert(shared_below(aux));
                    }
                }
                let ghost a_init = aux;
                if new_postfix_len == 0 {
                    aux.value = value;
                } else {
                    let _ = aux.insert(TrieKey::new(new_postfix), value);
                }
                self.children.insert(index, Box::new(aux));
                proof {
                    assert(aux.first() == old(self).children@[index as int].first());
                    self.lemma_wf_children_replaced(old(self), index as int);
                    if value is Some && shared_below(*old(self)) {
                        if new_postfix_len != 0 {
                            assert(npost[0] == kc[lcp as int]);
                            assert(cprime.key_chars()[0] == ck[lcp as int]);
                            assert(a_init.children@[0].first() != npost[0] as int);
                            assert(aux.children@.len() >= 2);
                        }
                        lemma_shared_replaced(*self, *old(self), index as int);
                    }
                    let p = ck.subrange(0, lcp as int);
                    assert(kc.subrange(0, lcp as int) =~= p);
                    if child_matches(o, kc) {
                        if kc.len() > lcp {
                            assert(kc.subrange(0, ck.len() as int)[lcp as int] == kc[lcp as int]);
                        }
                        assert(kc.len() >= ck.len());
                    }
                    assert(via(o, kc) is None);
                    assert forall|k: Seq<char>| k.len() > 0 implies #[trigger] self.get_rel(k) == if k == kc {
                        value
                    } else {
                        old(self).get_rel(k)
                    } by {
                        if k[0] as int != o.first() {
                            self.lemma_get_rel_replaced(old(self), index as int, k);
                        } else {
                            old(self).lemma_get_rel_by_first(index as int, k);
                            self.lemma_get_rel_by_first(index as int, k);
                            self.lemma_split_case(o, cprime, a_init, aux, kc, lcp as int, k, value);
                        }
                    }
                }
                None
            }
        } else {
            let leaf = RFRNode { node_key: key, value, children: Vec::new() };
            proof {
                if index < n {
                    let c = old(self).children@[index as int];
                    assert(c.wf());
                    lemma_lcp(key.chars(), c.key_chars());
                    assert(leaf.first() < c.first());
                }
                assert(leaf.wf());
            }
            self.children.insert(index, Box::new(leaf));
            proof {
                assert forall|i: int| 0 <= i < self.children@.len() implies (#[trigger] self.children@[i]).key_chars().len() > 0
                    && self.children@[i].wf() by {
                    if i < index {
                        assert(self.children@[i] == old(self).children@[i]);
                    } else if i > index {
                        assert(self.children@[i] == old(self).children@[i - 1]);
                    }
                }
                assert forall|i: int, j: int| 0 <= i < j < self.children@.len() implies (#[trigger] self.children@[i]).first()
                    < (#[trigger] self.children@[j]).first() by {
                    if index < n {
                        assert(old(self).children@[index as int].first() > leaf.first());
                    }
                    if i < index && j < index {
                        assert(self.children@[i] == old(self).children@[i]);
                        assert(self.children@[j] == old(self).children@[j]);
                    } else if i < index && j == index {
                        assert(self.children@[i] == old(self).children@[i]);
                    } else if i < index {
                        assert(self.children@[i] == old(self).children@[i]);
                        assert(self.children@[j] == old(self).children@[j - 1]);
                        assert(old(self).children@[index as int].first() <= old(self).children@[j - 1].first());
                    } else if i == index {
                        assert(self.children@[j] == old(self).children@[j - 1]);
                        assert(old(self).children@[index as int].first() <= old(self).children@[j - 1].first());
                    } else {
                        assert(self.children@[i] == old(self).children@[i - 1]);
                        assert(self.children@[j] == old(self).children@[j - 1]);
                    }
                }
                assert forall|j: int| 0 <= j < old(self).children@.len() implies old(self).children@[j].first()
                    != key.chars()[0] as int by {
                    if j > index {
                        assert(old(self).children@[index as int].first() < old(self).children@[j].first());
                    }
                }
                old(self).lemma_get_rel_none(key.chars());
                assert(self.children@ =~= old(self).children@.insert(index as int, self.children@[index as int]));
                if value is Some && shared_below(*old(self)) {
                    assert forall|i: int| 0 <= i < self.children@.len() implies ((#[trigger] self.children@[i]).value
                        is None ==> self.children@[i].children@.len() >= 2) && shared_below(*self.children@[i]) by {
                        if i < index {
                            assert(self.children@[i] == old(self).children@[i]);
                        } else if i > index {
                            assert(self.children@[i] == old(self).children@[i - 1]);
                        } else {
                            assert(shared_below(leaf));
                        }
                    }
                }
                lemma_prefix_same_len(key.chars(), key.chars());
                assert forall|k: Seq<char>| k.len() > 0 implies #[trigger] self.get_rel(k) == if k == key.chars() {
                    value
                } else {
                    old(self).get_rel(k)
                } by {
                    if k[0] as int != leaf.first() {
                        self.lemma_get_rel_inserted(old(self), index as int, k);
                    } else {
                        old(self).lemma_get_rel_none(k);
                        self.lemma_get_rel_by_first(index as int, k);
                        lemma_prefix_same_len(key.chars(), k);
                    }
                }
            }
            None
        }
    }

    /// A lazy lookup of the values whose keys match `match_key`, below this node.
    pub fn lookup<M: PushdownStateMachine>(&self, match_key: &K) -> (r: TrieIterator<'_, K, V, M>)
        where
            V: Clone,
        requires
            self.wf(),
        ensures
            r.inv(),
            !r.is_done(),
            r.root() == *self,
            r.produced() == Seq::<V>::empty(),
            r.candidate() == match_key.key_view(),
    {
        TrieIterator::new(self, match_key)
    }

    /// The first value the lookup of `key` yields (a clone of it), or `None`
    /// where it yields nothing.
    pub fn get<M: PushdownStateMachine>(&self, key: &K) -> (r: Option<V>)
        where
            V: Clone,
        requires
            self.wf(),
        ensures
            r is None <==> lookup_spec(*self, key.key_view()).len() == 0,
            r is Some ==> cloned(lookup_spec(*self, key.key_view())[0], r->0),
            (forall|a: V, b: V| cloned(a, b) ==> a == b) ==> r == (if lookup_spec(*self, key.key_view()).len() == 0 {
                None
            } else {
                Some(lookup_spec(*self, key.key_view())[0])
            }),
            r is Some ==> holds_clone(*self, r->0),
    {
        let mut it = self.lookup::<M>(key);
        let r = it.next();
        proof {
            it.lemma_produced_lookup();
            if r is Some {
                assert(it.produced()[0] == r->0);
            }
        }
        r
    }

    /// The children, in order.
    pub fn iter(&self) -> (r: std::slice::Iter<'_, Box<RFRNode<K, V>>>) {
        self.children.iter()
    }

    /// Visits every node below this one in trie order, with its depth (this
    /// node's children at `level`), relative key and value.
    pub fn foreach<F>(&self, level: usize, f: &F)
        where
            F: Fn((usize, &K, &Option<V>)),
        requires
            forall|t: (usize, &K, &Option<V>)| #[trigger] f.requires((t,)),
        decreases self,
    {
        let mut i: usize = 0;
        while i < self.children.len()
            invariant
                forall|t: (usize, &K, &Option<V>)| #[trigger] f.requires((t,)),
            decreases self.children@.len() - i,
        {
            let item: &RFRNode<K, V> = &self.children[i];
            f((level, &item.node_key.key, &item.value));
            let next_level = if level < usize::MAX { level + 1 } else { level };
            item.foreach(next_level, f);
            i = i + 1;
        }
    }

    /// Replacing one child by a well-formed child with a non-empty key and the
    /// same first character keeps the node well-formed.
    proof fn lemma_wf_children_replaced(&self, prev: &Self, index: int)
        requires
            prev.wf(),
            0 <= index < prev.children@.len(),
            self.node_key == prev.node_key,
            self.children@.len() == prev.children@.len(),
            forall|i: int| 0 <= i < self.children@.len() && i != index ==> self.children@[i] == prev.children@[i],
            self.children@[index].wf(),
            self.children@[index].key_chars().len() > 0,
            self.children@[index].first() == prev.children@[index].first(),
        ensures
            self.wf(),
    {
        assert forall|i: int, j: int| 0 <= i < j < self.children@.len() implies (#[trigger] self.children@[i]).first()
            < (#[trigger] self.children@[j]).first() by {
            assert(prev.children@[i].first() < prev.children@[j].first());
        }
        assert forall|i: int| 0 <= i < self.children@.len() implies (#[trigger] self.children@[i]).key_chars().len() > 0
            && self.children@[i].wf() by {
            if i != index {
                assert(prev.children@[i].wf());
            }
        }
    }
}

} // verus!
