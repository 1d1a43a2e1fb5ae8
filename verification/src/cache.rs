//! The page cache: a bounded LRU map from page index to its version chain,
//! an unbounded overflow map for chains displaced from the LRU part that
//! still carry versions of interest, and per-transaction bookkeeping of
//! uncommitted writes. Chains vanish when emptied.

use vstd::prelude::*;
use crate::plist::{
    lemma_pair_find_char, lemma_pair_find_unique, lemma_pair_frame_push, lemma_pair_frame_remove,
    pair_find, pair_lookup, pair_unique,
};
use crate::mvcc::{
    chain_inv, commit_of, is_committed, spec_append_uncommitted, spec_commit,
    spec_insert_committed, spec_split_off, spec_view, Mvcc, VersionV,
};
use crate::page::Page;

verus! {

/// Position of `key` in a chain list, or -1.
pub open spec fn seq_find(s: Seq<(usize, Mvcc)>, key: usize) -> int {
    pair_find(s, key)
}

/// The chain stored under `key`, if any.
pub open spec fn lookup(s: Seq<(usize, Mvcc)>, key: usize) -> Option<Seq<VersionV>> {
    match pair_lookup(s, key) {
        Some(m) => Some(m@),
        None => None,
    }
}

pub open spec fn unique_keys(s: Seq<(usize, Mvcc)>) -> bool {
    pair_unique(s)
}

proof fn lemma_seq_find_char(s: Seq<(usize, Mvcc)>, key: usize)
    ensures
        seq_find(s, key) == -1 ==> forall|j: int| 0 <= j < s.len() ==> (#[trigger] s[j]).0 != key,
        seq_find(s, key) != -1 ==> {
            let f = seq_find(s, key);
            &&& 0 <= f < s.len()
            &&& s[f].0 == key
            &&& forall|j: int| 0 <= j < f ==> (#[trigger] s[j]).0 != key
        },
{
    lemma_pair_find_char(s, key);
}

/// With unique keys, `seq_find` is determined by any occurrence.
proof fn lemma_seq_find_unique(s: Seq<(usize, Mvcc)>, key: usize, j: int)
    requires
        unique_keys(s),
        0 <= j < s.len(),
        s[j].0 == key,
    ensures
        seq_find(s, key) == j,
{
    lemma_pair_find_unique(s, key, j);
}

/// Removing one pair leaves every other key's lookup unchanged.
proof fn lemma_frame_remove(s: Seq<(usize, Mvcc)>, k: int)
    requires
        unique_keys(s),
        0 <= k < s.len(),
    ensures
        unique_keys(s.remove(k)),
        forall|key: usize| key != s[k].0 ==> #[trigger] lookup(s.remove(k), key) == lookup(s, key),
        lookup(s.remove(k), s[k].0) is None,
{
    lemma_pair_frame_remove(s, k);
    assert forall|key: usize| key != s[k].0 implies #[trigger] lookup(s.remove(k), key) == lookup(
        s,
        key,
    ) by {
        assert(pair_lookup(s.remove(k), key) == pair_lookup(s, key));
    }
}

/// Appending a pair with a fresh key leaves every other key's lookup
/// unchanged.
proof fn lemma_frame_push(s: Seq<(usize, Mvcc)>, p: (usize, Mvcc))
    requires
        unique_keys(s),
        seq_find(s, p.0) == -1,
    ensures
        unique_keys(s.push(p)),
        forall|key: usize| key != p.0 ==> #[trigger] lookup(s.push(p), key) == lookup(s, key),
        lookup(s.push(p), p.0) == Some(p.1@),
{
    lemma_pair_frame_push(s, p);
    assert forall|key: usize| key != p.0 implies #[trigger] lookup(s.push(p), key) == lookup(
        s,
        key,
    ) by {
        assert(pair_lookup(s.push(p), key) == pair_lookup(s, key));
    }
}

/// Finds the position of `key` in a chain list.
fn find_pos(v: &Vec<(usize, Mvcc)>, key: usize) -> (r: Option<usize>)
    ensures
        match r {
            Some(k) => k == seq_find(v@, key) && k < v@.len() && v@[k as int].0 == key,
            None => seq_find(v@, key) == -1,
        },
{
    proof {
        lemma_seq_find_char(v@, key);
    }
    let ghost f = seq_find(v@, key);
    let mut i: usize = 0;
    while i < v.len()
        invariant
            0 <= i <= v@.len(),
            f == seq_find(v@, key),
            f == -1 ==> forall|j: int| 0 <= j < v@.len() ==> (#[trigger] v@[j]).0 != key,
            f != -1 ==> 0 <= f < v@.len() && v@[f].0 == key && forall|j: int|
                0 <= j < f ==> (#[trigger] v@[j]).0 != key,
            forall|j: int| 0 <= j < i ==> (#[trigger] v@[j]).0 != key,
        decreases v@.len() - i,
    {
        if v[i].0 == key {
            assert(f == i as int);
            return Some(i);
        }
        i = i + 1;
    }
    None
}

/// Position of transaction `tx` in the uncommitted bookkeeping, or -1.
pub open spec fn tx_find(s: Seq<(usize, Vec<usize>)>, tx: usize) -> int {
    pair_find(s, tx)
}

/// The page indices recorded under `tx`, if any.
pub open spec fn tx_lookup(s: Seq<(usize, Vec<usize>)>, tx: usize) -> Option<Seq<usize>> {
    match pair_lookup(s, tx) {
        Some(l) => Some(l@),
        None => None,
    }
}

pub open spec fn unique_txs(s: Seq<(usize, Vec<usize>)>) -> bool {
    pair_unique(s)
}

proof fn lemma_tx_find_char(s: Seq<(usize, Vec<usize>)>, tx: usize)
    ensures
        tx_find(s, tx) == -1 ==> forall|j: int| 0 <= j < s.len() ==> (#[trigger] s[j]).0 != tx,
        tx_find(s, tx) != -1 ==> {
            let f = tx_find(s, tx);
            &&& 0 <= f < s.len()
            &&& s[f].0 == tx
            &&& forall|j: int| 0 <= j < f ==> (#[trigger] s[j]).0 != tx
        },
{
    lemma_pair_find_char(s, tx);
}

proof fn lemma_tx_find_unique(s: Seq<(usize, Vec<usize>)>, tx: usize, j: int)
    requires
        unique_txs(s),
        0 <= j < s.len(),
        s[j].0 == tx,
    ensures
        tx_find(s, tx) == j,
{
    lemma_pair_find_unique(s, tx, j);
}

proof fn lemma_tx_frame_remove(s: Seq<(usize, Vec<usize>)>, k: int)
    requires
        unique_txs(s),
        0 <= k < s.len(),
    ensures
        unique_txs(s.remove(k)),
        forall|t: usize| t != s[k].0 ==> #[trigger] tx_lookup(s.remove(k), t) == tx_lookup(s, t),
        tx_lookup(s.remove(k), s[k].0) is None,
{
    lemma_pair_frame_remove(s, k);
    assert forall|t: usize| t != s[k].0 implies #[trigger] tx_lookup(s.remove(k), t) == tx_lookup(
        s,
        t,
    ) by {
        assert(pair_lookup(s.remove(k), t) == pair_lookup(s, t));
    }
}

proof fn lemma_tx_frame_push(s: Seq<(usize, Vec<usize>)>, p: (usize, Vec<usize>))
    requires
        unique_txs(s),
        tx_find(s, p.0) == -1,
    ensures
        unique_txs(s.push(p)),
        forall|t: usize| t != p.0 ==> #[trigger] tx_lookup(s.push(p), t) == tx_lookup(s, t),
        tx_lookup(s.push(p), p.0) == Some(p.1@),
{
    lemma_pair_frame_push(s, p);
    assert forall|t: usize| t != p.0 implies #[trigger] tx_lookup(s.push(p), t) == tx_lookup(
        s,
        t,
    ) by {
        assert(pair_lookup(s.push(p), t) == pair_lookup(s, t));
    }
}

/// Finds the position of transaction `tx` in the bookkeeping list.
fn tx_pos(v: &Vec<(usize, Vec<usize>)>, tx: usize) -> (r: Option<usize>)
    ensures
        match r {
            Some(k) => k == tx_find(v@, tx) && k < v@.len() && v@[k as int].0 == tx,
            None => tx_find(v@, tx) == -1,
        },
{
    proof {
        lemma_tx_find_char(v@, tx);
    }
    let ghost f = tx_find(v@, tx);
    let mut i: usize = 0;
    while i < v.len()
        invariant
            0 <= i <= v@.len(),
            f == tx_find(v@, tx),
            f == -1 ==> forall|j: int| 0 <= j < v@.len() ==> (#[trigger] v@[j]).0 != tx,
            f != -1 ==> 0 <= f < v@.len() && v@[f].0 == tx && forall|j: int|
                0 <= j < f ==> (#[trigger] v@[j]).0 != tx,
            forall|j: int| 0 <= j < i ==> (#[trigger] v@[j]).0 != tx,
        decreases v@.len() - i,
    {
        if v[i].0 == tx {
            assert(f == i as int);
            return Some(i);
        }
        i = i + 1;
    }
    None
}

/// Adds a page index to a transaction's uncommitted set.
pub open spec fn spec_track(s: Seq<usize>, index: usize) -> Seq<usize> {
    if s.contains(index) {
        s
    } else {
        s.push(index)
    }
}

/// The page cache.
pub struct PageCache {
    cache: Vec<(usize, Mvcc)>,
    uncommitted: Vec<(usize, Vec<usize>)>,
    evicted: Vec<(usize, Mvcc)>,
    max_cache_size: usize,
}

impl PageCache {
    /// The version chain of page `index`, wherever it lives.
    pub closed spec fn chain_at(self, index: usize) -> Option<Seq<VersionV>> {
        match lookup(self.cache@, index) {
            Some(c) => Some(c),
            None => lookup(self.evicted@, index),
        }
    }

    /// Whether the chain of page `index` sits in the bounded LRU part.
    pub closed spec fn in_lru(self, index: usize) -> bool {
        lookup(self.cache@, index) is Some
    }

    /// Whether the chain of page `index` sits in the overflow part.
    pub closed spec fn in_evicted(self, index: usize) -> bool {
        lookup(self.evicted@, index) is Some
    }

    /// Page indices written and not yet committed by `tx`.
    pub closed spec fn tracked_at(self, tx: usize) -> Seq<usize> {
        match tx_lookup(self.uncommitted@, tx) {
            Some(l) => l,
            None => Seq::<usize>::empty(),
        }
    }

    /// Number of chains held in the bounded LRU part.
    pub closed spec fn lru_count(self) -> nat {
        self.cache@.len()
    }

    pub closed spec fn max_size(self) -> usize {
        self.max_cache_size
    }

    /// The cache invariant: the LRU part respects its bound, each page's
    /// chain lives in exactly one part, every chain satisfies the chain
    /// invariant and is nonempty, and the uncommitted bookkeeping lists
    /// each transaction once with distinct page indices.
    pub closed spec fn wf(self) -> bool {
        &&& self.max_cache_size >= 1
        &&& self.cache@.len() <= self.max_cache_size
        &&& unique_keys(self.cache@)
        &&& unique_keys(self.evicted@)
        &&& forall|i: int, j: int|
            0 <= i < self.cache@.len() && 0 <= j < self.evicted@.len() ==> (
            #[trigger] self.cache@[i]).0 != (#[trigger] self.evicted@[j]).0
        &&& forall|i: int|
            0 <= i < self.cache@.len() ==> chain_inv((#[trigger] self.cache@[i]).1@) && self.cache@[i].1@.len() > 0
        &&& forall|i: int|
            0 <= i < self.evicted@.len() ==> chain_inv((#[trigger] self.evicted@[i]).1@) && self.evicted@[i].1@.len() > 0
        &&& unique_txs(self.uncommitted@)
        &&& forall|i: int, a: int, b: int|
            0 <= i < self.uncommitted@.len() && 0 <= a < b < self.uncommitted@[i].1@.len()
                ==> #[trigger] self.uncommitted@[i].1@[a] != #[trigger] self.uncommitted@[i].1@[b]
    }

    /// Every chain in the cache satisfies the chain invariant.
    pub proof fn lemma_chains_wf(self, index: usize)
        requires
            self.wf(),
        ensures
            self.chain_at(index) matches Some(c) ==> chain_inv(c) && c.len() > 0,
    {
        lemma_seq_find_char(self.cache@, index);
        lemma_seq_find_char(self.evicted@, index);
    }

    /// A chain sits in the overflow part only while it still carries
    /// versions: a chain emptied by a flush vanishes rather than linger.
    pub proof fn lemma_evicted_nonempty(self, index: usize)
        requires
            self.wf(),
        ensures
            self.in_evicted(index) ==> (self.chain_at(index) matches Some(c) && c.len() > 0),
    {
        lemma_seq_find_char(self.cache@, index);
        lemma_seq_find_char(self.evicted@, index);
    }

    /// The LRU part never exceeds its bound.
    pub proof fn lemma_cache_size_bound(self)
        requires
            self.wf(),
        ensures
            self.lru_count() <= self.max_size(),
    {
    }

    pub fn new(max_cache_size: usize) -> (r: PageCache)
        requires
            max_cache_size >= 1,
        ensures
            r.wf(),
            forall|i: usize| r.chain_at(i) is None,
            forall|t: usize| r.tracked_at(t) =~= Seq::<usize>::empty(),
            r.max_size() == max_cache_size,
            r.lru_count() == 0,
    {
        PageCache {
            cache: Vec::new(),
            uncommitted: Vec::new(),
            evicted: Vec::new(),
            max_cache_size,
        }
    }

    /// Removes and returns the chain of `index` from whichever part holds
    /// it, remembering which part that was.
    fn take_chain(&mut self, index: usize) -> (r: (Option<Mvcc>, bool))
        requires
            old(self).wf(),
        ensures
            final(self).wf(),
            final(self).lru_count() <= old(self).lru_count(),
            match r.0 {
                Some(m) => old(self).chain_at(index) == Some(m@) && chain_inv(m@) && m@.len() > 0
                    && r.1 == old(self).in_lru(index),
                None => old(self).chain_at(index) is None,
            },
            final(self).chain_at(index) is None,
            forall|k: usize| k != index ==> final(self).chain_at(k) == old(self).chain_at(k),
            forall|k: usize| k != index ==> final(self).in_lru(k) == old(self).in_lru(k),
            final(self).uncommitted@ == old(self).uncommitted@,
            final(self).max_size() == old(self).max_size(),
    {
        match find_pos(&self.cache, index) {
            Some(k) => {
                let ghost s0 = self.cache@;
                let pair = self.cache.remove(k);
                proof {
                    lemma_frame_remove(s0, k as int);
                    lemma_seq_find_char(self.evicted@, index);
                    if seq_find(self.evicted@, index) != -1 {
                        let g = seq_find(self.evicted@, index);
                        assert(self.evicted@[g].0 == index && s0[k as int].0 == index);
                        assert(false);
                    }
                }
                (Some(pair.1), true)
            },
            None => {
                match find_pos(&self.evicted, index) {
                    Some(k) => {
                        let ghost e0 = self.evicted@;
                        let pair = self.evicted.remove(k);
                        proof {
                            lemma_frame_remove(e0, k as int);
                        }
                        (Some(pair.1), false)
                    },
                    None => (None, true),
                }
            },
        }
    }

    /// Files a chain for `index` back into the cache (most recent position)
    /// or the overflow part, then displaces the least recent chain if the
    /// LRU bound is exceeded.
    fn put_chain(&mut self, index: usize, chain: Mvcc, to_cache: bool)
        requires
            old(self).wf(),
            old(self).chain_at(index) is None,
            chain_inv(chain@),
            chain@.len() > 0,
        ensures
            final(self).wf(),
            final(self).chain_at(index) == Some(chain@),
            forall|k: usize| k != index ==> final(self).chain_at(k) == old(self).chain_at(k),
            final(self).uncommitted@ == old(self).uncommitted@,
            final(self).max_size() == old(self).max_size(),
    {
        let ghost cv = chain@;
        proof {
            lemma_seq_find_char(self.cache@, index);
            lemma_seq_find_char(self.evicted@, index);
        }
        if to_cache {
            let ghost s0 = self.cache@;
            self.cache.push((index, chain));
            proof {
                lemma_frame_push(s0, self.cache@[s0.len() as int]);
            }
            if self.cache.len() > self.max_cache_size {
                let ghost s1 = self.cache@;
                let victim = self.cache.remove(0);
                let ghost vk = victim.0;
                proof {
                    lemma_frame_remove(s1, 0);
                    assert(s1[s1.len() - 1].0 == index);
                    assert(vk != index);
                    lemma_seq_find_char(self.evicted@, vk);
                    if seq_find(self.evicted@, vk) != -1 {
                        let g = seq_find(self.evicted@, vk);
                        assert(self.evicted@[g].0 == vk && s1[0].0 == vk && s0[0].0 == vk);
                        assert(false);
                    }
                }
                let ghost e0 = self.evicted@;
                self.evicted.push(victim);
                proof {
                    lemma_frame_push(e0, self.evicted@[e0.len() as int]);
                    assert(lookup(self.cache@, vk) is None);
                    assert(lookup(self.evicted@, vk) == Some(s1[0].1@));
                    assert(lookup(e0, vk) is None);
                    assert(old(self).chain_at(vk) == Some(s1[0].1@));
                }
            }
        } else {
            let ghost e0 = self.evicted@;
            self.evicted.push((index, chain));
            proof {
                lemma_frame_push(e0, self.evicted@[e0.len() as int]);
            }
        }
    }

    /// Records `index` among the pages `tx` has written uncommitted.
    fn track(&mut self, tx: usize, index: usize)
        requires
            old(self).wf(),
        ensures
            final(self).wf(),
            final(self).tracked_at(tx) == spec_track(old(self).tracked_at(tx), index),
            forall|t: usize| t != tx ==> final(self).tracked_at(t) == old(self).tracked_at(t),
            final(self).cache@ == old(self).cache@,
            final(self).evicted@ == old(self).evicted@,
            final(self).max_size() == old(self).max_size(),
    {
        match tx_pos(&self.uncommitted, tx) {
            Some(k) => {
                let ghost u0 = self.uncommitted@;
                let mut pair = self.uncommitted.remove(k);
                proof {
                    lemma_tx_frame_remove(u0, k as int);
                }
                let ghost l0 = pair.1@;
                let mut found = false;
                let mut i: usize = 0;
                while i < pair.1.len()
                    invariant
                        0 <= i <= l0.len(),
                        pair.1@ == l0,
                        found == l0.subrange(0, i as int).contains(index),
                    decreases l0.len() - i,
                {
                    let ghost pre = l0.subrange(0, i as int);
                    if pair.1[i] == index {
                        found = true;
                    }
                    proof {
                        assert(l0.subrange(0, i + 1) =~= pre.push(l0[i as int]));
                        if found {
                            if pre.contains(index) || l0[i as int] == index {
                                assert(l0.subrange(0, i + 1).contains(index)) by {
                                    if l0[i as int] == index {
                                        assert(l0.subrange(0, i + 1)[i as int] == index);
                                    } else {
                                        let w = choose|w: int|
                                            0 <= w < pre.len() && #[trigger] pre[w] == index;
                                        assert(l0.subrange(0, i + 1)[w] == index);
                                    }
                                }
                            }
                        } else {
                            if l0.subrange(0, i + 1).contains(index) {
                                let w = choose|w: int|
                                    0 <= w < i + 1 && #[trigger] l0.subrange(0, i + 1)[w] == index;
                                if w < i {
                                    assert(pre[w] == index);
                                }
                                assert(false);
                            }
                        }
                    }
                    i = i + 1;
                }
                proof {
                    assert(l0.subrange(0, l0.len() as int) =~= l0);
                }
                if !found {
                    pair.1.push(index);
                    proof {
                        assert(pair.1@ =~= l0.push(index));
                    }
                }
                let ghost u1 = self.uncommitted@;
                let ghost pv = pair.1@;
                self.uncommitted.push(pair);
                proof {
                    lemma_tx_frame_push(u1, self.uncommitted@[u1.len() as int]);
                    assert(self.uncommitted@[u1.len() as int].0 == tx);
                    assert(self.uncommitted@[u1.len() as int].1@ == pv);
                    assert forall|a: int, b: int|
                        0 <= a < b < pv.len() implies pv[a] != pv[b] by {
                        if b == l0.len() as int {
                            assert(!l0.contains(index));
                            assert(pv[a] == l0[a]);
                            if pv[a] == index {
                                assert(l0[a] == index);
                            }
                        }
                    }
                }
            },
            None => {
                let ghost u0 = self.uncommitted@;
                let mut l: Vec<usize> = Vec::new();
                l.push(index);
                let ghost pv = l@;
                self.uncommitted.push((tx, l));
                proof {
                    lemma_tx_frame_push(u0, self.uncommitted@[u0.len() as int]);
                    assert(self.uncommitted@[u0.len() as int].0 == tx);
                    assert(old(self).tracked_at(tx) =~= Seq::<usize>::empty());
                    assert(spec_track(old(self).tracked_at(tx), index) =~= pv);
                }
            },
        }
    }

    /// A snapshot read: the newest version of the page visible to `tx` at
    /// `snapshot`, returned as a copy so the caller never aliases cache
    /// memory. A hit in the LRU part refreshes the page's recency; a chain
    /// found in the overflow part stays there.
    pub fn get(&mut self, tx_id: usize, snapshot: usize, index: usize) -> (r: Option<Page>)
        requires
            old(self).wf(),
        ensures
            final(self).wf(),
            match old(self).chain_at(index) {
                Some(c) => match r {
                    Some(p) => spec_view(c, tx_id, snapshot) == Some(p@),
                    None => spec_view(c, tx_id, snapshot) is None,
                },
                None => r is None,
            },
            forall|k: usize| final(self).chain_at(k) == old(self).chain_at(k),
            forall|t: usize| final(self).tracked_at(t) == old(self).tracked_at(t),
            final(self).max_size() == old(self).max_size(),
    {
        let (copt, in_c) = self.take_chain(index);
        match copt {
            Some(chain) => {
                let r = chain.view_page(tx_id, snapshot);
                self.put_chain(index, chain, in_c);
                r
            },
            None => None,
        }
    }

    /// Records an uncommitted write by `tx_id`: the page joins the chain of
    /// `index` as that transaction's (replaced) uncommitted version, and the
    /// write is remembered for promotion at commit.
    pub fn insert_dirty(&mut self, tx_id: usize, index: usize, page: Page)
        requires
            old(self).wf(),
        ensures
            final(self).wf(),
            final(self).chain_at(index) == Some(
                spec_append_uncommitted(
                    match old(self).chain_at(index) {
                        Some(c) => c,
                        None => Seq::<VersionV>::empty(),
                    },
                    tx_id,
                    page@,
                ),
            ),
            forall|k: usize| k != index ==> final(self).chain_at(k) == old(self).chain_at(k),
            final(self).tracked_at(tx_id) == spec_track(old(self).tracked_at(tx_id), index),
            forall|t: usize| t != tx_id ==> final(self).tracked_at(t) == old(self).tracked_at(t),
            final(self).lru_count() <= final(self).max_size(),
            final(self).max_size() == old(self).max_size(),
    {
        self.track(tx_id, index);
        let (copt, _) = self.take_chain(index);
        let mut chain = match copt {
            Some(c) => c,
            None => Mvcc::new(),
        };
        chain.append_uncommitted(tx_id, page);
        proof {
            crate::mvcc::lemma_find_uncommitted_char(
                match old(self).chain_at(index) {
                    Some(c) => c,
                    None => Seq::<VersionV>::empty(),
                },
                tx_id,
            );
        }
        self.put_chain(index, chain, true);
    }

    /// Files a committed version brought in from the data file at the
    /// reader's snapshot into the chain of `index`.
    pub fn insert_from_disk(&mut self, snapshot: usize, index: usize, page: Page)
        requires
            old(self).wf(),
        ensures
            final(self).wf(),
            final(self).chain_at(index) == Some(
                spec_insert_committed(
                    match old(self).chain_at(index) {
                        Some(c) => c,
                        None => Seq::<VersionV>::empty(),
                    },
                    VersionV { tx_id: snapshot, commit_index: Some(snapshot), page: page@ },
                ),
            ),
            forall|k: usize| k != index ==> final(self).chain_at(k) == old(self).chain_at(k),
            forall|t: usize| final(self).tracked_at(t) == old(self).tracked_at(t),
            final(self).lru_count() <= final(self).max_size(),
            final(self).max_size() == old(self).max_size(),
    {
        let ghost c0 = match old(self).chain_at(index) {
            Some(c) => c,
            None => Seq::<VersionV>::empty(),
        };
        let (copt, _) = self.take_chain(index);
        let mut chain = match copt {
            Some(c) => c,
            None => Mvcc::new(),
        };
        proof {
            assert(chain@ == c0);
            crate::mvcc::lemma_committed_position_char(c0, snapshot);
        }
        chain.append_committed(snapshot, page);
        self.put_chain(index, chain, true);
    }

    /// Promotes every page `tx_id` wrote to committed at log index
    /// `commit_index`, and forgets the transaction's bookkeeping.
    pub fn commit(&mut self, tx_id: usize, commit_index: usize)
        requires
            old(self).wf(),
            forall|k: usize|
                #[trigger] old(self).chain_at(k) matches Some(c) ==> forall|j: int|
                    0 <= j < c.len() && is_committed(#[trigger] c[j]) ==> commit_of(c[j])
                        < commit_index,
        ensures
            final(self).wf(),
            forall|i: usize|
                old(self).tracked_at(tx_id).contains(i) ==> final(self).chain_at(i) == match old(
                    self,
                ).chain_at(i) {
                    Some(c) => Some(spec_commit(c, tx_id, commit_index)),
                    None => None,
                },
            forall|i: usize|
                !old(self).tracked_at(tx_id).contains(i) ==> final(self).chain_at(i) == old(
                    self,
                ).chain_at(i),
            final(self).tracked_at(tx_id) =~= Seq::<usize>::empty(),
            forall|t: usize| t != tx_id ==> final(self).tracked_at(t) == old(self).tracked_at(t),
            final(self).max_size() == old(self).max_size(),
    {
        let ghost l = old(self).tracked_at(tx_id);
        let list = match tx_pos(&self.uncommitted, tx_id) {
            None => {
                return ;
            },
            Some(k) => {
                let ghost u0 = self.uncommitted@;
                let pair = self.uncommitted.remove(k);
                proof {
                    lemma_tx_frame_remove(u0, k as int);
                }
                pair.1
            },
        };
        let ghost u_after = self.uncommitted@;
        let mut n: usize = 0;
        while n < list.len()
            invariant
                0 <= n <= list@.len(),
                list@ == l,
                self.wf(),
                forall|a: int, b: int| 0 <= a < b < l.len() ==> l[a] != l[b],
                forall|k: usize|
                    !l.subrange(0, n as int).contains(k) ==> self.chain_at(k) == old(
                        self,
                    ).chain_at(k),
                forall|k: usize|
                    l.subrange(0, n as int).contains(k) ==> self.chain_at(k) == match old(
                        self,
                    ).chain_at(k) {
                        Some(c) => Some(spec_commit(c, tx_id, commit_index)),
                        None => None,
                    },
                forall|k: usize|
                    #[trigger] old(self).chain_at(k) matches Some(c) ==> forall|j: int|
                        0 <= j < c.len() && is_committed(#[trigger] c[j]) ==> commit_of(c[j])
                            < commit_index,
                self.uncommitted@ == u_after,
                tx_lookup(u_after, tx_id) is None,
                forall|t: usize|
                    t != tx_id ==> tx_lookup(u_after, t) == tx_lookup(old(self).uncommitted@, t),
                self.max_size() == old(self).max_size(),
            decreases list@.len() - n,
        {
            let index = list[n];
            let ghost pre = l.subrange(0, n as int);
            proof {
                if pre.contains(index) {
                    let w = choose|w: int| 0 <= w < pre.len() && #[trigger] pre[w] == index;
                    assert(l[w] == l[n as int]);
                    assert(false);
                }
            }
            proof {
                assert(!pre.contains(index));
                assert(self.chain_at(index) == old(self).chain_at(index));
            }
            let (copt, in_c) = self.take_chain(index);
            match copt {
                Some(mut chain) => {
                    proof {
                        assert(old(self).chain_at(index) == Some(chain@));
                        assert forall|j: int|
                            0 <= j < chain@.len() && is_committed(#[trigger] chain@[j]) implies
                            commit_of(chain@[j]) < commit_index by {
                            assert(old(self).chain_at(index) matches Some(c) && c == chain@);
                        }
                    }
                    chain.commit(tx_id, commit_index);
                    proof {
                        crate::mvcc::lemma_find_uncommitted_char(chain@, tx_id);
                    }
                    self.put_chain(index, chain, in_c);
                },
                None => {},
            }
            proof {
                assert(l.subrange(0, n + 1) =~= pre.push(index));
                assert forall|k: usize| l.subrange(0, n + 1).contains(k) implies self.chain_at(k)
                    == (match old(self).chain_at(k) {
                    Some(c) => Some(spec_commit(c, tx_id, commit_index)),
                    None => None,
                }) by {
                    if k != index {
                        let w = choose|w: int|
                            0 <= w < l.subrange(0, n + 1).len() && #[trigger] l.subrange(
                                0,
                                n + 1,
                            )[w] == k;
                        assert(pre[w] == k);
                    }
                }
                assert forall|k: usize| !l.subrange(0, n + 1).contains(k) implies self.chain_at(k)
                    == old(self).chain_at(k) by {
                    assert(k != index) by {
                        if k == index {
                            assert(l.subrange(0, n + 1)[n as int] == index);
                        }
                    }
                    assert(!pre.contains(k)) by {
                        if pre.contains(k) {
                            let w = choose|w: int| 0 <= w < pre.len() && #[trigger] pre[w] == k;
                            assert(l.subrange(0, n + 1)[w] == k);
                        }
                    }
                }
            }
            n = n + 1;
        }
        proof {
            assert(l.subrange(0, l.len() as int) =~= l);
        }
    }

    /// The page indices that currently have a chain, in no particular
    /// order.
    pub fn indices(&self) -> (r: Vec<usize>)
        requires
            self.wf(),
        ensures
            forall|k: usize| r@.contains(k) <==> self.chain_at(k) is Some,
            forall|a: int, b: int| 0 <= a < b < r@.len() ==> r@[a] != r@[b],
    {
        let cl = self.cache.len();
        let mut out: Vec<usize> = Vec::new();
        let mut i: usize = 0;
        while i < self.cache.len()
            invariant
                0 <= i <= self.cache@.len(),
                out@.len() == i,
                forall|j: int| 0 <= j < i ==> (#[trigger] out@[j]) == self.cache@[j].0,
            decreases self.cache@.len() - i,
        {
            let k = self.cache[i].0;
            out.push(k);
            i = i + 1;
        }
        let mut e: usize = 0;
        while e < self.evicted.len()
            invariant
                0 <= e <= self.evicted@.len(),
                cl == self.cache@.len(),
                out@.len() == cl + e,
                forall|j: int| 0 <= j < cl ==> (#[trigger] out@[j]) == self.cache@[j].0,
                forall|j: int|
                    cl <= j < cl + e ==> (#[trigger] out@[j]) == self.evicted@[j - cl].0,
            decreases self.evicted@.len() - e,
        {
            let k = self.evicted[e].0;
            out.push(k);
            e = e + 1;
        }
        proof {
            assert forall|k: usize| out@.contains(k) <==> self.chain_at(k) is Some by {
                lemma_seq_find_char(self.cache@, k);
                lemma_seq_find_char(self.evicted@, k);
                if out@.contains(k) {
                    let w = choose|w: int| 0 <= w < out@.len() && out@[w] == k;
                    if w < cl {
                        assert(self.cache@[w].0 == k);
                    } else {
                        assert(self.evicted@[w - cl].0 == k);
                    }
                }
                if self.chain_at(k) is Some {
                    if seq_find(self.cache@, k) != -1 {
                        let f = seq_find(self.cache@, k);
                        assert(out@[f] == k);
                    } else {
                        let f = seq_find(self.evicted@, k);
                        assert(out@[cl + f] == k);
                    }
                }
            }
            assert forall|a: int, b: int| 0 <= a < b < out@.len() implies out@[a] != out@[b] by {
                if a < cl && b < cl {
                    assert(out@[a] == self.cache@[a].0 && out@[b] == self.cache@[b].0);
                } else if a < cl {
                    assert(out@[a] == self.cache@[a].0 && out@[b] == self.evicted@[b - cl].0);
                } else {
                    assert(out@[a] == self.evicted@[a - cl].0 && out@[b] == self.evicted@[
                        b - cl].0);
                }
            }
        }
        out
    }

    /// The newest committed version of page `index`, with its commit
    /// index; the cache itself is unchanged.
    pub fn newest_committed(&mut self, index: usize) -> (r: Option<(usize, Page)>)
        requires
            old(self).wf(),
        ensures
            final(self).wf(),
            forall|k: usize| final(self).chain_at(k) == old(self).chain_at(k),
            forall|t: usize| final(self).tracked_at(t) == old(self).tracked_at(t),
            final(self).max_size() == old(self).max_size(),
            match old(self).chain_at(index) {
                Some(c) => match r {
                    Some(p) => crate::mvcc::spec_latest_committed(c) == Some((p.0, p.1@)),
                    None => crate::mvcc::spec_latest_committed(c) is None,
                },
                None => r is None,
            },
    {
        let (copt, in_c) = self.take_chain(index);
        match copt {
            Some(chain) => {
                let r = chain.latest_committed();
                self.put_chain(index, chain, in_c);
                r
            },
            None => None,
        }
    }

    /// After the committed version at `upto` became durable in the data
    /// file, trims versions the store no longer needs: in the LRU part the
    /// versions older than `upto`; in the overflow part also the version at
    /// `upto` itself. A chain emptied by the trim vanishes.
    pub fn flush(&mut self, upto: usize, index: usize)
        requires
            old(self).wf(),
            upto < usize::MAX,
        ensures
            final(self).wf(),
            final(self).chain_at(index) == match old(self).chain_at(index) {
                None => None::<Seq<VersionV>>,
                Some(c) => {
                    let t = if old(self).in_lru(index) {
                        spec_split_off(c, upto)
                    } else {
                        spec_split_off(c, (upto + 1) as usize)
                    };
                    if t.len() == 0 {
                        None
                    } else {
                        Some(t)
                    }
                },
            },
            forall|k: usize| k != index ==> final(self).chain_at(k) == old(self).chain_at(k),
            forall|t: usize| final(self).tracked_at(t) == old(self).tracked_at(t),
            final(self).max_size() == old(self).max_size(),
    {
        let (copt, in_c) = self.take_chain(index);
        match copt {
            Some(mut chain) => {
                if in_c {
                    chain.split_off(upto);
                } else {
                    chain.split_off(upto + 1);
                }
                if chain.is_empty() {
                    return ;
                }
                self.put_chain(index, chain, in_c);
            },
            None => {},
        }
    }
}

} // verus!
