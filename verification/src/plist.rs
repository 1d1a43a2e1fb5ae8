//! Association lists keyed by integers, with the lookup lemmas the store's
//! keyed collections share: position search, uniqueness, and the frame
//! facts for removing and appending entries.

use vstd::prelude::*;

verus! {

/// Position of `key`, or -1.
pub open spec fn pair_find<T>(s: Seq<(usize, T)>, key: usize) -> int
    decreases s.len(),
{
    if s.len() == 0 {
        -1
    } else if s[0].0 == key {
        0
    } else {
        let r = pair_find(s.skip(1), key);
        if r == -1 {
            -1
        } else {
            1 + r
        }
    }
}

/// The value stored under `key`, if any.
pub open spec fn pair_lookup<T>(s: Seq<(usize, T)>, key: usize) -> Option<T> {
    if pair_find(s, key) != -1 {
        Some(s[pair_find(s, key)].1)
    } else {
        None
    }
}

pub open spec fn pair_unique<T>(s: Seq<(usize, T)>) -> bool {
    forall|i: int, j: int| 0 <= i < j < s.len() ==> (#[trigger] s[i]).0 != (#[trigger] s[j]).0
}

pub proof fn lemma_pair_find_char<T>(s: Seq<(usize, T)>, key: usize)
    ensures
        pair_find(s, key) == -1 ==> forall|j: int| 0 <= j < s.len() ==> (#[trigger] s[j]).0 != key,
        pair_find(s, key) != -1 ==> {
            let f = pair_find(s, key);
            &&& 0 <= f < s.len()
            &&& s[f].0 == key
            &&& forall|j: int| 0 <= j < f ==> (#[trigger] s[j]).0 != key
        },
    decreases s.len(),
{
    if s.len() > 0 && s[0].0 != key {
        lemma_pair_find_char(s.skip(1), key);
        assert forall|j: int| 1 <= j < s.len() implies s[j] == s.skip(1)[j - 1] by {}
    }
}

/// With unique keys, `pair_find` is determined by any occurrence.
pub proof fn lemma_pair_find_unique<T>(s: Seq<(usize, T)>, key: usize, j: int)
    requires
        pair_unique(s),
        0 <= j < s.len(),
        s[j].0 == key,
    ensures
        pair_find(s, key) == j,
{
    lemma_pair_find_char(s, key);
}

/// Removing one pair leaves every other key's lookup unchanged.
pub proof fn lemma_pair_frame_remove<T>(s: Seq<(usize, T)>, k: int)
    requires
        pair_unique(s),
        0 <= k < s.len(),
    ensures
        pair_unique(s.remove(k)),
        forall|key: usize|
            key != s[k].0 ==> #[trigger] pair_lookup(s.remove(k), key) == pair_lookup(s, key),
        pair_lookup(s.remove(k), s[k].0) is None,
{
    let t = s.remove(k);
    assert forall|i: int| 0 <= i < t.len() implies t[i] == (if i < k {
        s[i]
    } else {
        s[i + 1]
    }) by {}
    assert forall|key: usize| key != s[k].0 implies #[trigger] pair_lookup(t, key) == pair_lookup(
        s,
        key,
    ) by {
        lemma_pair_find_char(s, key);
        lemma_pair_find_char(t, key);
        if pair_find(s, key) != -1 {
            let f = pair_find(s, key);
            assert(f != k);
            let f2 = if f < k {
                f
            } else {
                f - 1
            };
            assert(t[f2] == s[f]);
            lemma_pair_find_unique(t, key, f2);
        } else {
            if pair_find(t, key) != -1 {
                let g = pair_find(t, key);
                let o = if g < k {
                    g
                } else {
                    g + 1
                };
                assert(s[o] == t[g]);
                assert(false);
            }
        }
    }
    lemma_pair_find_char(t, s[k].0);
    if pair_find(t, s[k].0) != -1 {
        let g = pair_find(t, s[k].0);
        let o = if g < k {
            g
        } else {
            g + 1
        };
        assert(s[o] == t[g]);
        assert(false);
    }
}

/// Appending a pair with a fresh key leaves every other key's lookup
/// unchanged.
pub proof fn lemma_pair_frame_push<T>(s: Seq<(usize, T)>, p: (usize, T))
    requires
        pair_unique(s),
        pair_find(s, p.0) == -1,
    ensures
        pair_unique(s.push(p)),
        forall|key: usize|
            key != p.0 ==> #[trigger] pair_lookup(s.push(p), key) == pair_lookup(s, key),
        pair_lookup(s.push(p), p.0) == Some(p.1),
{
    let t = s.push(p);
    lemma_pair_find_char(s, p.0);
    assert forall|i: int| 0 <= i < s.len() implies t[i] == s[i] by {}
    assert(t[s.len() as int] == p);
    assert forall|i: int, j: int| 0 <= i < j < t.len() implies (#[trigger] t[i]).0 != (
    #[trigger] t[j]).0 by {
        if j == s.len() as int {
            assert(t[i] == s[i]);
        }
    }
    assert forall|key: usize| key != p.0 implies #[trigger] pair_lookup(t, key) == pair_lookup(
        s,
        key,
    ) by {
        lemma_pair_find_char(s, key);
        lemma_pair_find_char(t, key);
        if pair_find(s, key) != -1 {
            let f = pair_find(s, key);
            lemma_pair_find_unique(t, key, f);
        } else {
            if pair_find(t, key) != -1 {
                let g = pair_find(t, key);
                assert(t[g].0 == key);
                assert(g < s.len() ==> s[g] == t[g]);
                assert(g == s.len() ==> t[g] == p);
                assert(false);
            }
        }
    }
    lemma_pair_find_unique(t, p.0, s.len() as int);
}

/// Replacing a pair in place, key unchanged, leaves every other key's
/// lookup unchanged.
pub proof fn lemma_pair_frame_update<T>(s: Seq<(usize, T)>, k: int, p: (usize, T))
    requires
        pair_unique(s),
        0 <= k < s.len(),
        p.0 == s[k].0,
    ensures
        pair_unique(s.update(k, p)),
        forall|key: usize|
            key != p.0 ==> #[trigger] pair_lookup(s.update(k, p), key) == pair_lookup(s, key),
        pair_lookup(s.update(k, p), p.0) == Some(p.1),
{
    let t = s.update(k, p);
    assert forall|i: int| 0 <= i < t.len() implies t[i] == (if i == k {
        p
    } else {
        s[i]
    }) by {}
    assert forall|i: int, j: int| 0 <= i < j < t.len() implies (#[trigger] t[i]).0 != (
    #[trigger] t[j]).0 by {
        if i != k && j != k {
            assert(t[i] == s[i] && t[j] == s[j]);
        }
    }
    assert forall|key: usize| key != p.0 implies #[trigger] pair_lookup(t, key) == pair_lookup(
        s,
        key,
    ) by {
        lemma_pair_find_char(s, key);
        lemma_pair_find_char(t, key);
        if pair_find(s, key) != -1 {
            let f = pair_find(s, key);
            assert(f != k);
            assert(t[f] == s[f]);
            lemma_pair_find_unique(t, key, f);
        } else {
            if pair_find(t, key) != -1 {
                let g = pair_find(t, key);
                assert(g != k);
                assert(s[g] == t[g]);
                assert(false);
            }
        }
    }
    lemma_pair_find_unique(t, p.0, k);
}

/// Inserting a pair with a fresh key at any position leaves every other
/// key's lookup unchanged.
pub proof fn lemma_pair_frame_insert<T>(s: Seq<(usize, T)>, pos: int, p: (usize, T))
    requires
        pair_unique(s),
        0 <= pos <= s.len(),
        pair_find(s, p.0) == -1,
    ensures
        pair_unique(s.insert(pos, p)),
        forall|key: usize|
            key != p.0 ==> #[trigger] pair_lookup(s.insert(pos, p), key) == pair_lookup(s, key),
        pair_lookup(s.insert(pos, p), p.0) == Some(p.1),
{
    let t = s.insert(pos, p);
    lemma_pair_find_char(s, p.0);
    assert forall|i: int| 0 <= i < t.len() implies t[i] == (if i < pos {
        s[i]
    } else if i == pos {
        p
    } else {
        s[i - 1]
    }) by {}
    assert forall|i: int, j: int| 0 <= i < j < t.len() implies (#[trigger] t[i]).0 != (
    #[trigger] t[j]).0 by {
        if i != pos && j != pos {
            let oi = if i < pos {
                i
            } else {
                i - 1
            };
            let oj = if j < pos {
                j
            } else {
                j - 1
            };
            assert(t[i] == s[oi] && t[j] == s[oj]);
        }
    }
    assert forall|key: usize| key != p.0 implies #[trigger] pair_lookup(t, key) == pair_lookup(
        s,
        key,
    ) by {
        lemma_pair_find_char(s, key);
        lemma_pair_find_char(t, key);
        if pair_find(s, key) != -1 {
            let f = pair_find(s, key);
            let f2 = if f < pos {
                f
            } else {
                f + 1
            };
            assert(t[f2] == s[f]);
            lemma_pair_find_unique(t, key, f2);
        } else {
            if pair_find(t, key) != -1 {
                let g = pair_find(t, key);
                assert(g != pos);
                let o = if g < pos {
                    g
                } else {
                    g - 1
                };
                assert(s[o] == t[g]);
                assert(false);
            }
        }
    }
    lemma_pair_find_unique(t, p.0, pos);
}

} // verus!
