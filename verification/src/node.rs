//! B+tree node pages: the tree header (root pointer), internal nodes whose
//! keys separate their children, and leaf nodes that map keys to value-page
//! indices and are chained in key order through `next`.

use vstd::prelude::*;
use crate::keys::{key_compare, lex_lt, KeyOrd};

verus! {

/// The singleton root-pointer page, stored at `HEADER_INDEX`.
pub struct TreeHeader {
    root: usize,
}

impl View for TreeHeader {
    type V = usize;

    closed spec fn view(&self) -> usize {
        self.root
    }
}

impl TreeHeader {
    /// The header of a freshly initialized tree: the root is the first page
    /// after the header page itself.
    pub fn initial_state() -> (h: TreeHeader)
        ensures
            h@ == 1usize,
    {
        TreeHeader { root: 1 }
    }

    pub fn new(root: usize) -> (h: TreeHeader)
        ensures
            h@ == root,
    {
        TreeHeader { root }
    }

    pub fn get_root(&self) -> (r: usize)
        ensures
            r == self@,
    {
        self.root
    }

    pub fn set_root(&mut self, root: usize)
        ensures
            final(self)@ == root,
    {
        self.root = root;
    }
}

/// Mathematical content of an internal node.
pub struct InternalV {
    pub keys: Seq<Seq<char>>,
    pub children: Seq<usize>,
}

/// Mathematical content of a leaf node.
pub struct LeafV {
    pub keys: Seq<(Seq<char>, usize)>,
    pub next: Option<usize>,
}

/// Mathematical content of a node page.
pub enum EntryV {
    Internal(InternalV),
    Leaf(LeafV),
}

/// Separator keys in strictly increasing order.
pub open spec fn keys_sorted(ks: Seq<Seq<char>>) -> bool {
    forall|i: int, j: int| 0 <= i < j < ks.len() ==> lex_lt(#[trigger] ks[i], #[trigger] ks[j])
}

/// Leaf keys in strictly increasing order.
pub open spec fn leaf_sorted(ks: Seq<(Seq<char>, usize)>) -> bool {
    forall|i: int, j: int| 0 <= i < j < ks.len() ==> lex_lt((#[trigger] ks[i]).0, (#[trigger] ks[j]).0)
}

/// The child position a key descends into: the number of separators that are
/// less than or equal to the key.
pub open spec fn child_index_of(ks: Seq<Seq<char>>, key: Seq<char>) -> int
    decreases ks.len(),
{
    if ks.len() == 0 {
        0
    } else if lex_lt(key, ks[0]) {
        0
    } else {
        1 + child_index_of(ks.skip(1), key)
    }
}

/// `child_index_of` points at the first separator greater than the key.
pub proof fn lemma_child_index_char(ks: Seq<Seq<char>>, key: Seq<char>)
    ensures
        0 <= child_index_of(ks, key) <= ks.len(),
        forall|j: int| 0 <= j < child_index_of(ks, key) ==> !lex_lt(key, #[trigger] ks[j]),
        child_index_of(ks, key) < ks.len() ==> lex_lt(key, ks[child_index_of(ks, key)]),
    decreases ks.len(),
{
    if ks.len() > 0 && !lex_lt(key, ks[0]) {
        lemma_child_index_char(ks.skip(1), key);
        assert forall|j: int| 0 <= j < child_index_of(ks, key) implies !lex_lt(
            key,
            #[trigger] ks[j],
        ) by {
            if j > 0 {
                assert(ks[j] == ks.skip(1)[j - 1]);
            }
        }
    }
}

/// Inserting a fresh separator at its position keeps the keys sorted.
pub proof fn lemma_keys_insert_sorted(ks: Seq<Seq<char>>, key: Seq<char>)
    requires
        keys_sorted(ks),
        forall|j: int| 0 <= j < ks.len() ==> #[trigger] ks[j] != key,
    ensures
        keys_sorted(ks.insert(child_index_of(ks, key), key)),
{
    lemma_child_index_char(ks, key);
    let p = child_index_of(ks, key);
    let t = ks.insert(p, key);
    assert forall|i: int, j: int|
        0 <= i < j < t.len() implies lex_lt(#[trigger] t[i], #[trigger] t[j]) by {
        if j < p {
            assert(t[i] == ks[i] && t[j] == ks[j]);
        } else if j == p {
            assert(t[i] == ks[i]);
            crate::keys::lemma_lex_total(ks[i], key);
        } else if i == p {
            assert(t[j] == ks[j - 1]);
            assert(lex_lt(key, ks[p]));
            if j - 1 > p {
                crate::keys::lemma_lex_trans(key, ks[p], ks[j - 1]);
            }
        } else if i < p {
            assert(t[i] == ks[i] && t[j] == ks[j - 1]);
            if i == j - 1 {
                crate::keys::lemma_lex_total(ks[i], key);
                assert(false);
            }
        } else {
            assert(t[i] == ks[i - 1] && t[j] == ks[j - 1]);
        }
    }
}

/// Inserting a fresh key at its position keeps a leaf sorted.
pub proof fn lemma_leaf_insert_sorted(ks: Seq<(Seq<char>, usize)>, key: Seq<char>, pi: usize)
    requires
        leaf_sorted(ks),
        forall|j: int| 0 <= j < ks.len() ==> (#[trigger] ks[j]).0 != key,
    ensures
        leaf_sorted(ks.insert(leaf_position_of(ks, key), (key, pi))),
{
    lemma_leaf_position_char(ks, key);
    let p = leaf_position_of(ks, key);
    let t = ks.insert(p, (key, pi));
    assert forall|i: int, j: int|
        0 <= i < j < t.len() implies lex_lt((#[trigger] t[i]).0, (#[trigger] t[j]).0) by {
        if j < p {
            assert(t[i] == ks[i] && t[j] == ks[j]);
        } else if j == p {
            assert(t[i] == ks[i]);
            crate::keys::lemma_lex_total(ks[i].0, key);
        } else if i == p {
            assert(t[j] == ks[j - 1]);
            assert(lex_lt(key, ks[p].0));
            if j - 1 > p {
                crate::keys::lemma_lex_trans(key, ks[p].0, ks[j - 1].0);
            }
        } else if i < p {
            assert(t[i] == ks[i] && t[j] == ks[j - 1]);
            if i == j - 1 {
                crate::keys::lemma_lex_total(ks[i].0, key);
                assert(false);
            }
        } else {
            assert(t[i] == ks[i - 1] && t[j] == ks[j - 1]);
        }
    }
}

/// Position of the first entry with this key, or nothing.
pub open spec fn leaf_lookup(ks: Seq<(Seq<char>, usize)>, key: Seq<char>) -> Option<int>
    decreases ks.len(),
{
    if ks.len() == 0 {
        None
    } else if ks[0].0 == key {
        Some(0)
    } else {
        match leaf_lookup(ks.skip(1), key) {
            Some(i) => Some(i + 1),
            None => None,
        }
    }
}

pub proof fn lemma_leaf_lookup_char(ks: Seq<(Seq<char>, usize)>, key: Seq<char>)
    ensures
        match leaf_lookup(ks, key) {
            Some(i) => 0 <= i < ks.len() && ks[i].0 == key && forall|j: int|
                0 <= j < i ==> (#[trigger] ks[j]).0 != key,
            None => forall|j: int| 0 <= j < ks.len() ==> (#[trigger] ks[j]).0 != key,
        },
    decreases ks.len(),
{
    if ks.len() > 0 && ks[0].0 != key {
        lemma_leaf_lookup_char(ks.skip(1), key);
        assert forall|j: int| 1 <= j < ks.len() implies ks[j] == ks.skip(1)[j - 1] by {}
    }
}

/// A split leaves both halves sorted, with every key of the lower half
/// below the separator and the separator at or below every key of the
/// upper half.
pub proof fn lemma_split_order(ks: Seq<(Seq<char>, usize)>, mid: int)
    requires
        leaf_sorted(ks),
        0 <= mid < ks.len(),
    ensures
        leaf_sorted(ks.take(mid)),
        leaf_sorted(ks.skip(mid)),
        forall|i: int| 0 <= i < mid ==> lex_lt((#[trigger] ks.take(mid)[i]).0, ks[mid].0),
        forall|i: int|
            1 <= i < ks.skip(mid).len() ==> lex_lt(ks[mid].0, (#[trigger] ks.skip(mid)[i]).0),
{
    assert forall|i: int, j: int|
        0 <= i < j < ks.take(mid).len() implies lex_lt(
        (#[trigger] ks.take(mid)[i]).0,
        (#[trigger] ks.take(mid)[j]).0,
    ) by {
        assert(ks.take(mid)[i] == ks[i] && ks.take(mid)[j] == ks[j]);
    }
    assert forall|i: int, j: int|
        0 <= i < j < ks.skip(mid).len() implies lex_lt(
        (#[trigger] ks.skip(mid)[i]).0,
        (#[trigger] ks.skip(mid)[j]).0,
    ) by {
        assert(ks.skip(mid)[i] == ks[i + mid] && ks.skip(mid)[j] == ks[j + mid]);
    }
    assert forall|i: int| 0 <= i < mid implies lex_lt((#[trigger] ks.take(mid)[i]).0, ks[mid].0) by {
        assert(ks.take(mid)[i] == ks[i]);
    }
    assert forall|i: int|
        1 <= i < ks.skip(mid).len() implies lex_lt(ks[mid].0, (#[trigger] ks.skip(mid)[i]).0) by {
        assert(ks.skip(mid)[i] == ks[i + mid]);
    }
}

/// An internal node: `keys[i]` is a lower bound for every key stored under
/// `children[i + 1]`, and every key under `children[i]` is below `keys[i]`.
pub struct InternalNode {
    pub keys: Vec<String>,
    pub children: Vec<usize>,
}

impl View for InternalNode {
    type V = InternalV;

    open spec fn view(&self) -> InternalV {
        InternalV {
            keys: self.keys@.map_values(|s: String| s@),
            children: self.children@,
        }
    }
}

impl InternalNode {
    /// Shape and order of a well-formed internal node.
    pub open spec fn wf(&self) -> bool {
        &&& keys_sorted(self@.keys)
        &&& self@.children.len() == self@.keys.len() + 1
        &&& self@.keys.len() >= 1
    }

    pub fn new(key: String, left: usize, right: usize) -> (n: InternalNode)
        ensures
            n.wf(),
            n@.keys =~= seq![key@],
            n@.children =~= seq![left, right],
    {
        let n = InternalNode { keys: vec![key], children: vec![left, right] };
        proof {
            assert(n@.keys =~= seq![key@]);
        }
        n
    }

    pub fn len(&self) -> (r: usize)
        ensures
            r == self@.keys.len(),
    {
        self.keys.len()
    }

    /// The child position a key descends into.
    pub fn child_pos(&self, key: &str) -> (p: usize)
        ensures
            p == child_index_of(self@.keys, key@),
            p <= self@.keys.len(),
    {
        proof {
            lemma_child_index_char(self@.keys, key@);
        }
        let ghost c = child_index_of(self@.keys, key@);
        let mut i: usize = 0;
        while i < self.keys.len()
            invariant
                0 <= i <= self@.keys.len(),
                c == child_index_of(self@.keys, key@),
                0 <= c <= self@.keys.len(),
                forall|j: int| 0 <= j < c ==> !lex_lt(key@, #[trigger] self@.keys[j]),
                c < self@.keys.len() ==> lex_lt(key@, self@.keys[c]),
                forall|j: int| 0 <= j < i ==> !lex_lt(key@, #[trigger] self@.keys[j]),
            decreases self@.keys.len() - i,
        {
            if matches!(key_compare(key, self.keys[i].as_str()), KeyOrd::Lt) {
                assert(lex_lt(key@, self@.keys[i as int]));
                assert(c == i as int);
                return i;
            }
            i = i + 1;
        }
        assert(c == i as int);
        i
    }

    /// The child page a key descends into.
    pub fn next(&self, key: &str) -> (r: usize)
        requires
            self@.children.len() == self@.keys.len() + 1,
        ensures
            r == self@.children[child_index_of(self@.keys, key@)],
    {
        let p = self.child_pos(key);
        self.children[p]
    }

    /// Whether the separator is already present.
    pub fn contains_key(&self, key: &str) -> (r: bool)
        ensures
            r == exists|j: int| 0 <= j < self@.keys.len() && #[trigger] self@.keys[j] == key@,
    {
        let mut i: usize = 0;
        while i < self.keys.len()
            invariant
                0 <= i <= self@.keys.len(),
                forall|j: int| 0 <= j < i ==> #[trigger] self@.keys[j] != key@,
            decreases self@.keys.len() - i,
        {
            if matches!(key_compare(key, self.keys[i].as_str()), KeyOrd::Eq) {
                assert(self@.keys[i as int] == key@);
                return true;
            }
            i = i + 1;
        }
        false
    }

    /// The position at which a fresh separator belongs.
    fn position_of(&self, key: &str) -> (p: usize)
        requires
            forall|j: int| 0 <= j < self@.keys.len() ==> #[trigger] self@.keys[j] != key@,
        ensures
            p == child_index_of(self@.keys, key@),
    {
        proof {
            lemma_child_index_char(self@.keys, key@);
        }
        let ghost c = child_index_of(self@.keys, key@);
        let mut i: usize = 0;
        while i < self.keys.len()
            invariant
                0 <= i <= self@.keys.len(),
                c == child_index_of(self@.keys, key@),
                0 <= c <= self@.keys.len(),
                forall|j: int| 0 <= j < c ==> !lex_lt(key@, #[trigger] self@.keys[j]),
                c < self@.keys.len() ==> lex_lt(key@, self@.keys[c]),
                forall|j: int| 0 <= j < i ==> !lex_lt(key@, #[trigger] self@.keys[j]),
            decreases self@.keys.len() - i,
        {
            if matches!(key_compare(key, self.keys[i].as_str()), KeyOrd::Lt) {
                assert(lex_lt(key@, self@.keys[i as int]));
                assert(c == i as int);
                return i;
            }
            i = i + 1;
        }
        assert(c == i as int);
        i
    }

    /// Adds a separator and the child that holds the keys at and above it.
    pub fn add(&mut self, s: String, ni: usize)
        requires
            old(self)@.keys.len() < usize::MAX,
            old(self)@.children.len() == old(self)@.keys.len() + 1,
            forall|j: int| 0 <= j < old(self)@.keys.len() ==> #[trigger] old(self)@.keys[j] != s@,
        ensures
            final(self)@.keys == old(self)@.keys.insert(child_index_of(old(self)@.keys, s@), s@),
            final(self)@.children == old(self)@.children.insert(
                child_index_of(old(self)@.keys, s@) + 1,
                ni,
            ),
    {
        proof {
            lemma_child_index_char(self@.keys, s@);
        }
        let p = self.position_of(s.as_str());
        let ghost old_keys = self@.keys;
        let ghost old_children = self@.children;
        let ghost sv = s@;
        self.keys.insert(p, s);
        self.children.insert(p + 1, ni);
        proof {
            assert(self@.keys =~= old_keys.insert(p as int, sv));
            assert(self@.children =~= old_children.insert(p as int + 1, ni));
        }
    }

    /// Splits off the upper half into a fresh node; the middle key moves up
    /// as the separator between the two halves.
    pub fn split(&mut self) -> (r: (InternalNode, String))
        requires
            old(self)@.keys.len() >= 3,
            old(self)@.children.len() == old(self)@.keys.len() + 1,
        ensures
            ({
                let mid = old(self)@.keys.len() as int / 2;
                &&& final(self)@.keys == old(self)@.keys.take(mid)
                &&& final(self)@.children == old(self)@.children.take(mid + 1)
                &&& r.0@.keys == old(self)@.keys.skip(mid + 1)
                &&& r.0@.children == old(self)@.children.skip(mid + 1)
                &&& r.1@ == old(self)@.keys[mid]
            }),
    {
        let mid = self.keys.len() / 2;
        let upper_keys = self.keys.split_off(mid + 1);
        let upper_children = self.children.split_off(mid + 1);
        let s = self.keys.pop().unwrap();
        let n = InternalNode { keys: upper_keys, children: upper_children };
        proof {
            assert(self@.keys =~= old(self)@.keys.take(mid as int));
            assert(self@.children =~= old(self)@.children.take(mid as int + 1));
            assert(n@.keys =~= old(self)@.keys.skip(mid as int + 1));
            assert(n@.children =~= old(self)@.children.skip(mid as int + 1));
        }
        (n, s)
    }
}

/// A leaf node: each key carries the page index that stores its value; `next`
/// links to the leaf holding the next keys in order.
pub struct LeafNode {
    pub keys: Vec<(String, usize)>,
    pub next: Option<usize>,
}

impl View for LeafNode {
    type V = LeafV;

    open spec fn view(&self) -> LeafV {
        LeafV {
            keys: self.keys@.map_values(|p: (String, usize)| (p.0@, p.1)),
            next: self.next,
        }
    }
}

/// The leaf-level position a key belongs at: the number of leaf keys that are
/// less than or equal to it.
pub open spec fn leaf_position_of(ks: Seq<(Seq<char>, usize)>, key: Seq<char>) -> int
    decreases ks.len(),
{
    if ks.len() == 0 {
        0
    } else if lex_lt(key, ks[0].0) {
        0
    } else {
        1 + leaf_position_of(ks.skip(1), key)
    }
}

pub proof fn lemma_leaf_position_char(ks: Seq<(Seq<char>, usize)>, key: Seq<char>)
    ensures
        0 <= leaf_position_of(ks, key) <= ks.len(),
        forall|j: int| 0 <= j < leaf_position_of(ks, key) ==> !lex_lt(key, (#[trigger] ks[j]).0),
        leaf_position_of(ks, key) < ks.len() ==> lex_lt(key, ks[leaf_position_of(ks, key)].0),
    decreases ks.len(),
{
    if ks.len() > 0 && !lex_lt(key, ks[0].0) {
        lemma_leaf_position_char(ks.skip(1), key);
        assert forall|j: int| 0 <= j < leaf_position_of(ks, key) implies !lex_lt(
            key,
            (#[trigger] ks[j]).0,
        ) by {
            if j > 0 {
                assert(ks[j] == ks.skip(1)[j - 1]);
            }
        }
    }
}

impl LeafNode {
    /// Order of a well-formed leaf.
    pub open spec fn wf(&self) -> bool {
        leaf_sorted(self@.keys)
    }

    pub fn empty() -> (n: LeafNode)
        ensures
            n@.keys =~= Seq::<(Seq<char>, usize)>::empty(),
            n@.next is None,
            n.wf(),
    {
        LeafNode { keys: Vec::new(), next: None }
    }

    pub fn len(&self) -> (r: usize)
        ensures
            r == self@.keys.len(),
    {
        self.keys.len()
    }

    /// Looks the key up; returns the position of its first occurrence.
    pub fn find(&self, key: &str) -> (r: Option<usize>)
        ensures
            match r {
                Some(i) => leaf_lookup(self@.keys, key@) == Some(i as int),
                None => leaf_lookup(self@.keys, key@) is None,
            },
    {
        proof {
            lemma_leaf_lookup_char(self@.keys, key@);
        }
        let ghost f = leaf_lookup(self@.keys, key@);
        let mut i: usize = 0;
        while i < self.keys.len()
            invariant
                0 <= i <= self@.keys.len(),
                f == leaf_lookup(self@.keys, key@),
                f matches Some(fi) ==> 0 <= fi < self@.keys.len() && self@.keys[fi].0 == key@
                    && forall|j: int| 0 <= j < fi ==> (#[trigger] self@.keys[j]).0 != key@,
                f is None ==> forall|j: int|
                    0 <= j < self@.keys.len() ==> (#[trigger] self@.keys[j]).0 != key@,
                forall|j: int| 0 <= j < i ==> (#[trigger] self@.keys[j]).0 != key@,
            decreases self@.keys.len() - i,
        {
            if matches!(key_compare(key, self.keys[i].0.as_str()), KeyOrd::Eq) {
                proof {
                    assert(self@.keys[i as int].0 == key@);
                    if f is None {
                        assert(false);
                    }
                    let fi = f.unwrap();
                    if fi < i as int {
                        assert(self@.keys[fi].0 == key@);
                        assert(false);
                    }
                    if fi > i as int {
                        assert(self@.keys[i as int].0 != key@);
                        assert(false);
                    }
                }
                return Some(i);
            }
            i = i + 1;
        }
        None
    }

    /// The page index recorded for the key at position `i`.
    pub fn value_at(&self, i: usize) -> (r: usize)
        requires
            i < self@.keys.len(),
        ensures
            r == self@.keys[i as int].1,
    {
        self.keys[i].1
    }

    /// The position at which the key belongs.
    fn leaf_position(&self, key: &str) -> (p: usize)
        ensures
            p == leaf_position_of(self@.keys, key@),
    {
        proof {
            lemma_leaf_position_char(self@.keys, key@);
        }
        let ghost c = leaf_position_of(self@.keys, key@);
        let mut i: usize = 0;
        while i < self.keys.len()
            invariant
                0 <= i <= self@.keys.len(),
                c == leaf_position_of(self@.keys, key@),
                0 <= c <= self@.keys.len(),
                forall|j: int| 0 <= j < c ==> !lex_lt(key@, (#[trigger] self@.keys[j]).0),
                c < self@.keys.len() ==> lex_lt(key@, self@.keys[c].0),
                forall|j: int| 0 <= j < i ==> !lex_lt(key@, (#[trigger] self@.keys[j]).0),
            decreases self@.keys.len() - i,
        {
            if matches!(key_compare(key, self.keys[i].0.as_str()), KeyOrd::Lt) {
                assert(lex_lt(key@, self@.keys[i as int].0));
                assert(c == i as int);
                return i;
            }
            i = i + 1;
        }
        assert(c == i as int);
        i
    }

    /// Inserts a fresh key with its value-page index; returns the new minimum
    /// key when the insert changed which key is smallest.
    pub fn add(&mut self, key: String, pi: usize) -> (lk: Option<String>)
        requires
            forall|j: int|
                0 <= j < old(self)@.keys.len() ==> (#[trigger] old(self)@.keys[j]).0 != key@,
        ensures
            final(self)@.keys == old(self)@.keys.insert(
                leaf_position_of(old(self)@.keys, key@),
                (key@, pi),
            ),
            final(self)@.next == old(self)@.next,
            match lk {
                Some(s) => s@ == key@ && leaf_position_of(old(self)@.keys, key@) == 0 && old(
                    self,
                )@.keys.len() > 0,
                None => leaf_position_of(old(self)@.keys, key@) != 0 || old(self)@.keys.len() == 0,
            },
    {
        proof {
            lemma_leaf_position_char(self@.keys, key@);
        }
        let ghost c = leaf_position_of(self@.keys, key@);
        let ghost old_keys = self@.keys;
        let ghost kv = key@;
        let i = self.leaf_position(key.as_str());
        let was_empty = self.keys.len() == 0;
        let lk: Option<String> = if i == 0 && !was_empty {
            Some(key.clone())
        } else {
            None
        };
        self.keys.insert(i, (key, pi));
        proof {
            assert(self@.keys =~= old_keys.insert(c, (kv, pi)));
        }
        lk
    }

    /// Splits off the upper half into a fresh leaf stored at page `ni`, and
    /// links this leaf to it; returns the new leaf and its first key.
    pub fn split(&mut self, ni: usize) -> (r: (LeafNode, String))
        requires
            old(self)@.keys.len() >= 2,
        ensures
            ({
                let mid = old(self)@.keys.len() as int / 2;
                &&& final(self)@.keys == old(self)@.keys.take(mid)
                &&& final(self)@.next == Some(ni)
                &&& r.0@.keys == old(self)@.keys.skip(mid)
                &&& r.0@.next == old(self)@.next
                &&& r.1@ == old(self)@.keys[mid].0
            }),
    {
        let mid = self.keys.len() / 2;
        let upper = self.keys.split_off(mid);
        let s = upper[0].0.clone();
        let n = LeafNode { keys: upper, next: self.next };
        self.next = Some(ni);
        proof {
            assert(self@.keys =~= old(self)@.keys.take(mid as int));
            assert(n@.keys =~= old(self)@.keys.skip(mid as int));
        }
        (n, s)
    }
}

/// Number of keys a node holds.
pub open spec fn entry_len(e: EntryV) -> nat {
    match e {
        EntryV::Internal(n) => n.keys.len(),
        EntryV::Leaf(l) => l.keys.len(),
    }
}

/// The node's keys in strictly increasing order.
pub open spec fn entry_sorted(e: EntryV) -> bool {
    match e {
        EntryV::Internal(n) => keys_sorted(n.keys),
        EntryV::Leaf(l) => leaf_sorted(l.keys),
    }
}

/// The node's shape: an internal node has one more child than keys.
pub open spec fn entry_shaped(e: EntryV) -> bool {
    match e {
        EntryV::Internal(n) => n.children.len() == n.keys.len() + 1 && n.keys.len() >= 1,
        EntryV::Leaf(_) => true,
    }
}

proof fn lemma_sorted_step(ks: Seq<Seq<char>>, i: int, j: int)
    requires
        forall|m: int| 0 <= m < ks.len() - 1 ==> lex_lt(#[trigger] ks[m], ks[m + 1]),
        0 <= i < j < ks.len(),
    ensures
        lex_lt(ks[i], ks[j]),
    decreases j - i,
{
    if j == i + 1 {
    } else {
        lemma_sorted_step(ks, i, j - 1);
        crate::keys::lemma_lex_trans(ks[i], ks[j - 1], ks[j]);
    }
}

/// Adjacent order gives full order.
pub proof fn lemma_sorted_from_adjacent(ks: Seq<Seq<char>>)
    requires
        forall|m: int| 0 <= m < ks.len() - 1 ==> lex_lt(#[trigger] ks[m], ks[m + 1]),
    ensures
        keys_sorted(ks),
{
    assert forall|i: int, j: int| 0 <= i < j < ks.len() implies lex_lt(
        #[trigger] ks[i],
        #[trigger] ks[j],
    ) by {
        lemma_sorted_step(ks, i, j);
    }
}

proof fn lemma_leaf_sorted_step(ks: Seq<(Seq<char>, usize)>, i: int, j: int)
    requires
        forall|m: int| 0 <= m < ks.len() - 1 ==> lex_lt((#[trigger] ks[m]).0, ks[m + 1].0),
        0 <= i < j < ks.len(),
    ensures
        lex_lt(ks[i].0, ks[j].0),
    decreases j - i,
{
    if j == i + 1 {
    } else {
        lemma_leaf_sorted_step(ks, i, j - 1);
        crate::keys::lemma_lex_trans(ks[i].0, ks[j - 1].0, ks[j].0);
    }
}

/// Adjacent order gives full order, for leaf keys.
pub proof fn lemma_leaf_sorted_from_adjacent(ks: Seq<(Seq<char>, usize)>)
    requires
        forall|m: int| 0 <= m < ks.len() - 1 ==> lex_lt((#[trigger] ks[m]).0, ks[m + 1].0),
    ensures
        leaf_sorted(ks),
{
    assert forall|i: int, j: int| 0 <= i < j < ks.len() implies lex_lt(
        (#[trigger] ks[i]).0,
        (#[trigger] ks[j]).0,
    ) by {
        lemma_leaf_sorted_step(ks, i, j);
    }
}

/// A node page: internal or leaf.
pub enum CursorEntry {
    Internal(InternalNode),
    Leaf(LeafNode),
}

impl View for CursorEntry {
    type V = EntryV;

    open spec fn view(&self) -> EntryV {
        match self {
            CursorEntry::Internal(n) => EntryV::Internal(n@),
            CursorEntry::Leaf(n) => EntryV::Leaf(n@),
        }
    }
}

impl CursorEntry {
    /// Whether the decoded node is fit to operate on: well shaped, keys in
    /// strictly increasing order, within the node-size bound. A page that
    /// decodes to anything else is treated as corrupt.
    pub fn well_formed(&self) -> (r: bool)
        ensures
            r == (entry_shaped(self@) && entry_sorted(self@) && entry_len(self@)
                <= crate::MAX_NODE_LEN),
    {
        match self {
            CursorEntry::Internal(n) => {
                if n.keys.len() < 1 || n.keys.len() > crate::MAX_NODE_LEN || n.children.len()
                    != n.keys.len() + 1 {
                    return false;
                }
                let mut m: usize = 0;
                while m + 1 < n.keys.len()
                    invariant
                        self@ == EntryV::Internal(n@),
                        n@.children.len() == n@.keys.len() + 1,
                        0 <= m < n@.keys.len(),
                        1 <= n@.keys.len() <= crate::MAX_NODE_LEN,
                        forall|q: int| 0 <= q < m ==> lex_lt(#[trigger] n@.keys[q], n@.keys[q + 1]),
                    decreases n@.keys.len() - m,
                {
                    if !matches!(
                        key_compare(n.keys[m].as_str(), n.keys[m + 1].as_str()),
                        KeyOrd::Lt,
                    ) {
                        proof {
                            crate::keys::lemma_lex_total(
                                n@.keys[m as int],
                                n@.keys[m as int + 1],
                            );
                            assert(!keys_sorted(n@.keys)) by {
                                if keys_sorted(n@.keys) {
                                    assert(lex_lt(n@.keys[m as int], n@.keys[m as int + 1]));
                                }
                            }
                        }
                        return false;
                    }
                    m = m + 1;
                }
                proof {
                    lemma_sorted_from_adjacent(n@.keys);
                }
                true
            },
            CursorEntry::Leaf(l) => {
                if l.keys.len() > crate::MAX_NODE_LEN {
                    return false;
                }
                if l.keys.len() == 0 {
                    proof {
                        assert(leaf_sorted(l@.keys));
                    }
                    return true;
                }
                let mut m: usize = 0;
                while m + 1 < l.keys.len()
                    invariant
                        self@ == EntryV::Leaf(l@),
                        0 <= m < l@.keys.len(),
                        1 <= l@.keys.len() <= crate::MAX_NODE_LEN,
                        forall|q: int|
                            0 <= q < m ==> lex_lt((#[trigger] l@.keys[q]).0, l@.keys[q + 1].0),
                    decreases l@.keys.len() - m,
                {
                    if !matches!(
                        key_compare(l.keys[m].0.as_str(), l.keys[m + 1].0.as_str()),
                        KeyOrd::Lt,
                    ) {
                        proof {
                            crate::keys::lemma_lex_total(
                                l@.keys[m as int].0,
                                l@.keys[m as int + 1].0,
                            );
                            assert(!leaf_sorted(l@.keys)) by {
                                if leaf_sorted(l@.keys) {
                                    assert(lex_lt(
                                        (l@.keys[m as int]).0,
                                        (l@.keys[m as int + 1]).0,
                                    ));
                                }
                            }
                        }
                        return false;
                    }
                    m = m + 1;
                }
                proof {
                    lemma_leaf_sorted_from_adjacent(l@.keys);
                }
                true
            },
        }
    }

    /// Either the value-page index for the key (leaf hit), or the child to
    /// descend into (internal), or nothing (leaf miss).
    pub fn find_or_next(&self, key: &str) -> (r: Result<usize, Option<usize>>)
        requires
            self@ matches EntryV::Internal(n) ==> n.children.len() == n.keys.len() + 1,
        ensures
            match self@ {
                EntryV::Internal(n) => r == Err::<usize, Option<usize>>(
                    Some(n.children[child_index_of(n.keys, key@)]),
                ),
                EntryV::Leaf(n) => match leaf_lookup(n.keys, key@) {
                    Some(i) => r == Ok::<usize, Option<usize>>(n.keys[i].1),
                    None => r == Err::<usize, Option<usize>>(None),
                },
            },
    {
        match self {
            CursorEntry::Internal(n) => Err(Some(n.next(key))),
            CursorEntry::Leaf(n) => {
                proof {
                    lemma_leaf_lookup_char(n@.keys, key@);
                }
                match n.find(key) {
                    Some(i) => {
                        let r = n.value_at(i);
                        Ok(r)
                    },
                    None => Err(None),
                }
            },
        }
    }
}

} // verus!
