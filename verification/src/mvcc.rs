//! Per-page version chains for multi-version concurrency control.
//!
//! A chain holds committed versions in strictly increasing commit-index
//! order, followed by at most one uncommitted version per transaction.
//! A snapshot read returns the newest committed version at or below the
//! snapshot, unless the reading transaction has its own uncommitted write.

use vstd::prelude::*;
use crate::page::{Page, PageV};

verus! {

/// One version of a page: who wrote it, and the log index at which it
/// committed (`None` while the writing transaction is still open).
pub struct Version {
    pub tx_id: usize,
    pub commit_index: Option<usize>,
    pub page: Page,
}

/// Mathematical content of a version.
pub struct VersionV {
    pub tx_id: usize,
    pub commit_index: Option<usize>,
    pub page: PageV,
}

impl View for Version {
    type V = VersionV;

    open spec fn view(&self) -> VersionV {
        VersionV { tx_id: self.tx_id, commit_index: self.commit_index, page: self.page@ }
    }
}

pub open spec fn is_committed(v: VersionV) -> bool {
    v.commit_index is Some
}

pub open spec fn commit_of(v: VersionV) -> usize {
    match v.commit_index {
        Some(c) => c,
        None => 0,
    }
}

/// The chain invariant: committed versions form a prefix in strictly
/// increasing commit-index order, and open transactions appear at most once.
pub open spec fn chain_inv(s: Seq<VersionV>) -> bool {
    &&& forall|i: int, j: int|
        0 <= i < j < s.len() && is_committed(#[trigger] s[j]) ==> is_committed(#[trigger] s[i])
    &&& forall|i: int, j: int|
        0 <= i < j < s.len() && is_committed(#[trigger] s[i]) && is_committed(#[trigger] s[j])
            ==> commit_of(s[i]) < commit_of(s[j])
    &&& forall|i: int, j: int|
        0 <= i < j < s.len() && !is_committed(#[trigger] s[i]) && !is_committed(#[trigger] s[j])
            ==> s[i].tx_id != s[j].tx_id
}

/// Position of the uncommitted version of `tx`, or -1 when there is none.
pub open spec fn find_uncommitted(s: Seq<VersionV>, tx: usize) -> int
    decreases s.len(),
{
    if s.len() == 0 {
        -1
    } else if !is_committed(s[0]) && s[0].tx_id == tx {
        0
    } else {
        let r = find_uncommitted(s.skip(1), tx);
        if r == -1 {
            -1
        } else {
            r + 1
        }
    }
}

pub proof fn lemma_find_uncommitted_char(s: Seq<VersionV>, tx: usize)
    ensures
        find_uncommitted(s, tx) == -1 ==> forall|j: int|
            0 <= j < s.len() ==> !(!is_committed(#[trigger] s[j]) && s[j].tx_id == tx),
        find_uncommitted(s, tx) != -1 ==> {
            let f = find_uncommitted(s, tx);
            &&& 0 <= f < s.len()
            &&& !is_committed(s[f]) && s[f].tx_id == tx
            &&& forall|j: int|
                0 <= j < f ==> !(!is_committed(#[trigger] s[j]) && s[j].tx_id == tx)
        },
    decreases s.len(),
{
    if s.len() > 0 && !(!is_committed(s[0]) && s[0].tx_id == tx) {
        lemma_find_uncommitted_char(s.skip(1), tx);
        assert forall|j: int| 1 <= j < s.len() implies s[j] == s.skip(1)[j - 1] by {}
    }
}

/// Number of leading committed versions whose commit index is below `ci`.
pub open spec fn committed_position(s: Seq<VersionV>, ci: usize) -> int
    decreases s.len(),
{
    if s.len() == 0 {
        0
    } else if is_committed(s[0]) && commit_of(s[0]) < ci {
        1 + committed_position(s.skip(1), ci)
    } else {
        0
    }
}

pub proof fn lemma_committed_position_char(s: Seq<VersionV>, ci: usize)
    ensures
        0 <= committed_position(s, ci) <= s.len(),
        forall|j: int|
            0 <= j < committed_position(s, ci) ==> is_committed(#[trigger] s[j]) && commit_of(s[j])
                < ci,
        committed_position(s, ci) < s.len() ==> !(is_committed(s[committed_position(s, ci)])
            && commit_of(s[committed_position(s, ci)]) < ci),
    decreases s.len(),
{
    if s.len() > 0 && is_committed(s[0]) && commit_of(s[0]) < ci {
        lemma_committed_position_char(s.skip(1), ci);
        assert forall|j: int| 1 <= j < s.len() implies s[j] == s.skip(1)[j - 1] by {}
    }
}

/// Number of leading committed versions.
pub open spec fn committed_len(s: Seq<VersionV>) -> int
    decreases s.len(),
{
    if s.len() == 0 {
        0
    } else if is_committed(s[0]) {
        1 + committed_len(s.skip(1))
    } else {
        0
    }
}

pub proof fn lemma_committed_len_char(s: Seq<VersionV>)
    requires
        chain_inv(s),
    ensures
        0 <= committed_len(s) <= s.len(),
        forall|j: int| 0 <= j < s.len() ==> (is_committed(#[trigger] s[j]) <==> j < committed_len(s)),
    decreases s.len(),
{
    if s.len() > 0 {
        assert forall|j: int| 1 <= j < s.len() implies s[j] == s.skip(1)[j - 1] by {}
        if is_committed(s[0]) {
            assert(chain_inv(s.skip(1)));
            lemma_committed_len_char(s.skip(1));
        } else {
            assert forall|j: int| 0 <= j < s.len() implies !is_committed(#[trigger] s[j]) by {
                if j > 0 && is_committed(s[j]) {
                    assert(is_committed(s[0]));
                }
            }
        }
    }
}

/// A chain after an uncommitted write by `tx`: the write replaces the
/// transaction's earlier uncommitted version, or is appended.
pub open spec fn spec_append_uncommitted(s: Seq<VersionV>, tx: usize, p: PageV) -> Seq<VersionV> {
    let v = VersionV { tx_id: tx, commit_index: None, page: p };
    let f = find_uncommitted(s, tx);
    if f == -1 {
        s.push(v)
    } else {
        s.update(f, v)
    }
}

/// A chain after a committed version is filed into its sorted place; a
/// version already present at the same commit index is replaced.
pub open spec fn spec_insert_committed(s: Seq<VersionV>, v: VersionV) -> Seq<VersionV> {
    let p = committed_position(s, commit_of(v));
    if p < s.len() && is_committed(s[p]) && commit_of(s[p]) == commit_of(v) {
        s.update(p, v)
    } else {
        s.insert(p, v)
    }
}

/// A chain after `tx` commits at log index `ci`: its uncommitted version,
/// if any, moves into the committed prefix.
pub open spec fn spec_commit(s: Seq<VersionV>, tx: usize, ci: usize) -> Seq<VersionV> {
    let f = find_uncommitted(s, tx);
    if f == -1 {
        s
    } else {
        let v = VersionV { tx_id: tx, commit_index: Some(ci), page: s[f].page };
        spec_insert_committed(s.remove(f), v)
    }
}

/// A chain after versions made redundant by a flush up to `upto` are gone.
pub open spec fn spec_split_off(s: Seq<VersionV>, upto: usize) -> Seq<VersionV> {
    s.skip(committed_position(s, upto))
}

/// The newest committed version at or below the snapshot.
pub open spec fn view_committed(s: Seq<VersionV>, snapshot: usize) -> Option<PageV>
    decreases s.len(),
{
    if s.len() == 0 {
        None
    } else {
        let last = s[s.len() - 1];
        if is_committed(last) && commit_of(last) <= snapshot {
            Some(last.page)
        } else {
            view_committed(s.drop_last(), snapshot)
        }
    }
}

/// What a read by `tx` at `snapshot` sees: the transaction's own
/// uncommitted write when it has one, else the snapshot view.
pub open spec fn spec_view(s: Seq<VersionV>, tx: usize, snapshot: usize) -> Option<PageV> {
    let f = find_uncommitted(s, tx);
    if f != -1 {
        Some(s[f].page)
    } else {
        view_committed(s, snapshot)
    }
}

/// Removing any version keeps the chain invariant.
pub proof fn lemma_inv_remove(s: Seq<VersionV>, f: int)
    requires
        chain_inv(s),
        0 <= f < s.len(),
    ensures
        chain_inv(s.remove(f)),
{
    let t = s.remove(f);
    assert forall|i: int| 0 <= i < t.len() implies t[i] == (if i < f {
        s[i]
    } else {
        s[i + 1]
    }) by {}
}

/// Skipping a prefix keeps the chain invariant.
pub proof fn lemma_inv_skip(s: Seq<VersionV>, k: int)
    requires
        chain_inv(s),
        0 <= k <= s.len(),
    ensures
        chain_inv(s.skip(k)),
{
    let t = s.skip(k);
    assert forall|i: int| 0 <= i < t.len() implies t[i] == s[i + k] by {}
}

/// An uncommitted write keeps the chain invariant.
pub proof fn lemma_inv_append_uncommitted(s: Seq<VersionV>, tx: usize, p: PageV)
    requires
        chain_inv(s),
    ensures
        chain_inv(spec_append_uncommitted(s, tx, p)),
{
    lemma_find_uncommitted_char(s, tx);
    let v = VersionV { tx_id: tx, commit_index: None, page: p };
    let f = find_uncommitted(s, tx);
    if f == -1 {
        let t = s.push(v);
        assert forall|i: int| 0 <= i < s.len() implies t[i] == s[i] by {}
        assert(t[s.len() as int] == v);
    } else {
        let t = s.update(f, v);
        assert forall|i: int| 0 <= i < t.len() implies t[i] == (if i == f {
            v
        } else {
            s[i]
        }) by {}
        assert forall|i: int, j: int|
            0 <= i < j < t.len() && !is_committed(#[trigger] t[i]) && !is_committed(
                #[trigger] t[j],
            ) implies t[i].tx_id != t[j].tx_id by {
            if i != f && j != f {
                assert(t[i] == s[i] && t[j] == s[j]);
            }
        }
    }
}

/// Filing a committed version into its sorted place keeps the chain
/// invariant.
pub proof fn lemma_inv_insert_committed(s: Seq<VersionV>, v: VersionV)
    requires
        chain_inv(s),
        is_committed(v),
    ensures
        chain_inv(spec_insert_committed(s, v)),
{
    lemma_committed_position_char(s, commit_of(v));
    let p = committed_position(s, commit_of(v));
    if p < s.len() && is_committed(s[p]) && commit_of(s[p]) == commit_of(v) {
        let t = s.update(p, v);
        assert forall|i: int| 0 <= i < t.len() implies t[i] == (if i == p {
            v
        } else {
            s[i]
        }) by {}
        assert forall|i: int, j: int|
            0 <= i < j < t.len() && is_committed(#[trigger] t[j]) implies is_committed(
            #[trigger] t[i],
        ) by {
            if i != p && j != p {
                assert(t[i] == s[i] && t[j] == s[j]);
            }
        }
        assert forall|i: int, j: int|
            0 <= i < j < t.len() && is_committed(#[trigger] t[i]) && is_committed(
                #[trigger] t[j],
            ) implies commit_of(t[i]) < commit_of(t[j]) by {
            assert(commit_of(t[i]) == commit_of(s[i]) && commit_of(t[j]) == commit_of(s[j]));
            assert(is_committed(s[i]) && is_committed(s[j]));
        }
        return ;
    }
    let t = s.insert(p, v);
    assert forall|j: int|
        0 <= j < s.len() && is_committed(#[trigger] s[j]) implies commit_of(s[j]) != commit_of(
        v,
    ) by {
        if commit_of(s[j]) == commit_of(v) {
            if j < p {
                assert(commit_of(s[j]) < commit_of(v));
            } else if j == p {
            } else {
                assert(is_committed(s[p])) by {
                    assert(is_committed(s[j]));
                }
                assert(commit_of(s[p]) < commit_of(s[j]));
                assert(!(is_committed(s[p]) && commit_of(s[p]) < commit_of(v)));
            }
        }
    }
    assert forall|i: int| 0 <= i < t.len() implies t[i] == (if i < p {
        s[i]
    } else if i == p {
        v
    } else {
        s[i - 1]
    }) by {}
    assert forall|i: int, j: int|
        0 <= i < j < t.len() && is_committed(#[trigger] t[j]) implies is_committed(
        #[trigger] t[i],
    ) by {
        if i < p {
            assert(is_committed(s[i]));
        } else if i == p {
        } else {
            assert(t[j] == s[j - 1] && t[i] == s[i - 1]);
        }
    }
    assert forall|i: int, j: int|
        0 <= i < j < t.len() && is_committed(#[trigger] t[i]) && is_committed(
            #[trigger] t[j],
        ) implies commit_of(t[i]) < commit_of(t[j]) by {
        if j == p {
            assert(t[i] == s[i] && is_committed(s[i]) && commit_of(s[i]) < commit_of(v));
        } else if i == p {
            assert(t[j] == s[j - 1]);
            assert(!(is_committed(s[j - 1]) && commit_of(s[j - 1]) < commit_of(v)) || j - 1 < p);
            assert(commit_of(s[j - 1]) != commit_of(v));
            assert(commit_of(v) < commit_of(s[j - 1]));
        } else if i < p && j > p {
            assert(t[i] == s[i] && t[j] == s[j - 1]);
            if p <= j - 1 {
                if p < s.len() && is_committed(s[p]) {
                    assert(commit_of(s[i]) < commit_of(s[j - 1]));
                } else {
                    assert(p == j - 1 || is_committed(s[p]));
                    assert(commit_of(s[i]) < commit_of(s[j - 1]));
                }
            }
        }
    }
}

/// All committed versions of the chain sit at or below `bound`.
pub open spec fn committed_below(s: Seq<VersionV>, bound: usize) -> bool {
    forall|j: int|
        0 <= j < s.len() && is_committed(#[trigger] s[j]) ==> commit_of(s[j]) <= bound
}

/// An uncommitted write adds no committed version.
pub proof fn lemma_bound_append_uncommitted(s: Seq<VersionV>, tx: usize, p: PageV, bound: usize)
    requires
        committed_below(s, bound),
    ensures
        committed_below(spec_append_uncommitted(s, tx, p), bound),
{
    lemma_find_uncommitted_char(s, tx);
    let t = spec_append_uncommitted(s, tx, p);
    let f = find_uncommitted(s, tx);
    assert forall|j: int|
        0 <= j < t.len() && is_committed(#[trigger] t[j]) implies commit_of(t[j]) <= bound by {
        if f == -1 {
            if j < s.len() {
                assert(t[j] == s[j]);
            }
        } else {
            if j != f {
                assert(t[j] == s[j]);
            }
        }
    }
}

/// Filing a committed version at or below the bound keeps the bound.
pub proof fn lemma_bound_insert_committed(s: Seq<VersionV>, v: VersionV, bound: usize)
    requires
        committed_below(s, bound),
        commit_of(v) <= bound,
    ensures
        committed_below(spec_insert_committed(s, v), bound),
{
    lemma_committed_position_char(s, commit_of(v));
    let p = committed_position(s, commit_of(v));
    let t = spec_insert_committed(s, v);
    assert forall|j: int|
        0 <= j < t.len() && is_committed(#[trigger] t[j]) implies commit_of(t[j]) <= bound by {
        if p < s.len() && is_committed(s[p]) && commit_of(s[p]) == commit_of(v) {
            if j != p {
                assert(t[j] == s[j]);
            }
        } else {
            if j < p {
                assert(t[j] == s[j]);
            } else if j > p {
                assert(t[j] == s[j - 1]);
            }
        }
    }
}

/// A commit at or below the bound keeps the bound.
pub proof fn lemma_bound_commit(s: Seq<VersionV>, tx: usize, ci: usize, bound: usize)
    requires
        committed_below(s, bound),
        ci <= bound,
    ensures
        committed_below(spec_commit(s, tx, ci), bound),
{
    lemma_find_uncommitted_char(s, tx);
    let f = find_uncommitted(s, tx);
    if f != -1 {
        let s1 = s.remove(f);
        assert forall|j: int|
            0 <= j < s1.len() && is_committed(#[trigger] s1[j]) implies commit_of(s1[j])
            <= bound by {
            if j < f {
                assert(s1[j] == s[j]);
            } else {
                assert(s1[j] == s[j + 1]);
            }
        }
        lemma_bound_insert_committed(
            s1,
            VersionV { tx_id: tx, commit_index: Some(ci), page: s[f].page },
            bound,
        );
    }
}

/// Trimming a chain keeps the bound.
pub proof fn lemma_bound_split_off(s: Seq<VersionV>, upto: usize, bound: usize)
    requires
        committed_below(s, bound),
    ensures
        committed_below(spec_split_off(s, upto), bound),
{
    lemma_committed_position_char(s, upto);
    let k = committed_position(s, upto);
    let t = s.skip(k);
    assert forall|j: int|
        0 <= j < t.len() && is_committed(#[trigger] t[j]) implies commit_of(t[j]) <= bound by {
        assert(t[j] == s[j + k]);
    }
}

/// A bound only grows.
pub proof fn lemma_bound_mono(s: Seq<VersionV>, a: usize, b: usize)
    requires
        committed_below(s, a),
        a <= b,
    ensures
        committed_below(s, b),
{
}

/// The newest committed version of a chain, with its commit index.
pub open spec fn spec_latest_committed(s: Seq<VersionV>) -> Option<(usize, PageV)> {
    if committed_len(s) == 0 {
        None
    } else {
        Some((commit_of(s[committed_len(s) - 1]), s[committed_len(s) - 1].page))
    }
}

/// Committed versions of a chain appear in strictly increasing
/// commit-index order.
pub proof fn lemma_version_chain_order(s: Seq<VersionV>)
    requires
        chain_inv(s),
    ensures
        forall|i: int, j: int|
            0 <= i < j < s.len() && is_committed(#[trigger] s[i]) && is_committed(
                #[trigger] s[j],
            ) ==> commit_of(s[i]) < commit_of(s[j]),
{
}

proof fn lemma_view_committed_witness(s: Seq<VersionV>, snapshot: usize)
    ensures
        view_committed(s, snapshot) matches Some(p) ==> exists|j: int|
            0 <= j < s.len() && is_committed(#[trigger] s[j]) && commit_of(s[j]) <= snapshot
                && s[j].page == p,
        view_committed(s, snapshot) is None ==> forall|j: int|
            0 <= j < s.len() ==> !(is_committed(#[trigger] s[j]) && commit_of(s[j]) <= snapshot),
    decreases s.len(),
{
    if s.len() > 0 {
        let last = s[s.len() - 1];
        if is_committed(last) && commit_of(last) <= snapshot {
        } else {
            lemma_view_committed_witness(s.drop_last(), snapshot);
            if view_committed(s, snapshot) is Some {
                let p = view_committed(s, snapshot).unwrap();
                let j = choose|j: int|
                    0 <= j < s.drop_last().len() && is_committed(#[trigger] s.drop_last()[j])
                        && commit_of(s.drop_last()[j]) <= snapshot && s.drop_last()[j].page == p;
                assert(s[j] == s.drop_last()[j]);
            } else {
                assert forall|j: int| 0 <= j < s.len() implies !(is_committed(#[trigger] s[j])
                    && commit_of(s[j]) <= snapshot) by {
                    if j < s.len() - 1 {
                        assert(s.drop_last()[j] == s[j]);
                    }
                }
            }
        }
    }
}

/// Snapshot isolation at the chain: what a read returns is either the
/// reading transaction's own uncommitted write, or a version that
/// committed at or before the snapshot — never a version committed later,
/// and never another transaction's uncommitted write.
pub proof fn lemma_snapshot_isolation(s: Seq<VersionV>, tx: usize, snapshot: usize)
    requires
        chain_inv(s),
    ensures
        spec_view(s, tx, snapshot) matches Some(p) ==> exists|j: int|
            0 <= j < s.len() && (#[trigger] s[j]).page == p && ((!is_committed(s[j]) && s[j].tx_id
                == tx) || (is_committed(s[j]) && commit_of(s[j]) <= snapshot)),
{
    lemma_find_uncommitted_char(s, tx);
    let f = find_uncommitted(s, tx);
    if f != -1 {
        assert(s[f].page == spec_view(s, tx, snapshot).unwrap());
    } else {
        lemma_view_committed_witness(s, snapshot);
        if spec_view(s, tx, snapshot) is Some {
            let p = spec_view(s, tx, snapshot).unwrap();
            let j = choose|j: int|
                0 <= j < s.len() && is_committed(#[trigger] s[j]) && commit_of(s[j]) <= snapshot
                    && s[j].page == p;
            assert(s[j].page == p && is_committed(s[j]) && commit_of(s[j]) <= snapshot);
        }
    }
}

/// The snapshot view is maximal: it returns the newest committed version
/// at or below the snapshot, not an older one.
pub proof fn lemma_view_maximal(s: Seq<VersionV>, snapshot: usize)
    requires
        chain_inv(s),
    ensures
        view_committed(s, snapshot) matches Some(p) ==> exists|j: int|
            0 <= j < s.len() && is_committed(#[trigger] s[j]) && commit_of(s[j]) <= snapshot
                && s[j].page == p && forall|j2: int|
                0 <= j2 < s.len() && is_committed(#[trigger] s[j2]) && commit_of(s[j2]) <= snapshot
                    ==> commit_of(s[j2]) <= commit_of(s[j]),
    decreases s.len(),
{
    if s.len() > 0 {
        let last = s[s.len() - 1];
        if is_committed(last) && commit_of(last) <= snapshot {
            let j = s.len() - 1;
            assert forall|j2: int|
                0 <= j2 < s.len() && is_committed(#[trigger] s[j2]) && commit_of(s[j2])
                    <= snapshot implies commit_of(s[j2]) <= commit_of(s[j]) by {
                if j2 < j {
                    assert(commit_of(s[j2]) < commit_of(s[j]));
                }
            }
            assert(0 <= j < s.len() && is_committed(s[j]) && commit_of(s[j]) <= snapshot && s[j].page
                == view_committed(s, snapshot).unwrap());
        } else {
            let d = s.drop_last();
            assert(chain_inv(d)) by {
                assert forall|i: int| 0 <= i < d.len() implies d[i] == s[i] by {}
            }
            lemma_view_maximal(d, snapshot);
            if view_committed(s, snapshot) is Some {
                let p = view_committed(s, snapshot).unwrap();
                let j = choose|j: int|
                    0 <= j < d.len() && is_committed(#[trigger] d[j]) && commit_of(d[j])
                        <= snapshot && d[j].page == p && forall|j2: int|
                        0 <= j2 < d.len() && is_committed(#[trigger] d[j2]) && commit_of(d[j2])
                            <= snapshot ==> commit_of(d[j2]) <= commit_of(d[j]);
                assert(s[j] == d[j]);
                assert forall|j2: int|
                    0 <= j2 < s.len() && is_committed(#[trigger] s[j2]) && commit_of(s[j2])
                        <= snapshot implies commit_of(s[j2]) <= commit_of(s[j]) by {
                    if j2 < s.len() - 1 {
                        assert(d[j2] == s[j2]);
                    }
                }
            }
        }
    }
}

proof fn lemma_view_committed_same(s: Seq<VersionV>, t: Seq<VersionV>, snapshot: usize)
    requires
        s.len() == t.len(),
        forall|j: int|
            0 <= j < s.len() ==> (is_committed(#[trigger] t[j]) == is_committed(#[trigger] s[j])
                && (is_committed(s[j]) ==> t[j] == s[j])),
    ensures
        view_committed(t, snapshot) == view_committed(s, snapshot),
    decreases s.len(),
{
    if s.len() > 0 {
        assert forall|j: int|
            0 <= j < s.drop_last().len() implies (is_committed(#[trigger] t.drop_last()[j])
                == is_committed(#[trigger] s.drop_last()[j]) && (is_committed(s.drop_last()[j])
                ==> t.drop_last()[j] == s.drop_last()[j])) by {
            assert(s.drop_last()[j] == s[j] && t.drop_last()[j] == t[j]);
        }
        lemma_view_committed_same(s.drop_last(), t.drop_last(), snapshot);
        assert(is_committed(t[s.len() - 1]) == is_committed(s[s.len() - 1]));
    }
}

/// A transaction's uncommitted write is invisible to every other
/// transaction: another reader's view does not change, committed or not.
pub proof fn lemma_uncommitted_invisible(
    s: Seq<VersionV>,
    tx1: usize,
    p: PageV,
    tx2: usize,
    snapshot: usize,
)
    requires
        chain_inv(s),
        tx2 != tx1,
    ensures
        spec_view(spec_append_uncommitted(s, tx1, p), tx2, snapshot) == spec_view(
            s,
            tx2,
            snapshot,
        ),
{
    lemma_find_uncommitted_char(s, tx1);
    lemma_find_uncommitted_char(s, tx2);
    let t = spec_append_uncommitted(s, tx1, p);
    lemma_find_uncommitted_char(t, tx2);
    let f1 = find_uncommitted(s, tx1);
    let f2 = find_uncommitted(s, tx2);
    let g2 = find_uncommitted(t, tx2);
    if f1 == -1 {
        assert forall|j: int| 0 <= j < s.len() implies t[j] == s[j] by {}
        assert(t[s.len() as int].tx_id == tx1);
        if f2 != -1 {
            if g2 == -1 {
                assert(!(!is_committed(t[f2]) && t[f2].tx_id == tx2));
                assert(false);
            }
            assert(t[g2] == s[g2]) by {
                assert(g2 < s.len()) by {
                    if g2 == s.len() as int {
                        assert(t[g2].tx_id == tx1);
                    }
                }
            }
            if g2 < f2 {
                assert(!(!is_committed(s[g2]) && s[g2].tx_id == tx2));
                assert(false);
            }
            if f2 < g2 {
                assert(t[f2] == s[f2]);
                assert(false);
            }
            assert(spec_view(t, tx2, snapshot) == Some(t[g2].page));
            assert(spec_view(s, tx2, snapshot) == Some(s[f2].page));
        } else {
            if g2 != -1 {
                assert(g2 < s.len() ==> t[g2] == s[g2]);
                assert(g2 == s.len() as int ==> t[g2].tx_id == tx1);
                assert(false);
            }
            lemma_view_committed_same(
                s,
                t.drop_last(),
                snapshot,
            );
            assert(t.drop_last() =~= s);
            assert(view_committed(t, snapshot) == view_committed(s, snapshot));
        }
    } else {
        let v = VersionV { tx_id: tx1, commit_index: None, page: p };
        assert forall|j: int| 0 <= j < t.len() implies t[j] == (if j == f1 {
            v
        } else {
            s[j]
        }) by {}
        if f2 != -1 {
            assert(f2 != f1);
            if g2 == -1 {
                assert(!(!is_committed(t[f2]) && t[f2].tx_id == tx2));
                assert(false);
            }
            assert(g2 != f1) by {
                if g2 == f1 {
                    assert(t[g2].tx_id == tx1);
                }
            }
            assert(t[g2] == s[g2]);
            if g2 < f2 {
                assert(false);
            }
            if f2 < g2 {
                assert(t[f2] == s[f2] || f2 == f1);
                assert(false);
            }
            assert(spec_view(t, tx2, snapshot) == Some(t[g2].page));
        } else {
            if g2 != -1 {
                assert(g2 == f1 ==> t[g2].tx_id == tx1);
                assert(g2 != f1 ==> t[g2] == s[g2]);
                assert(false);
            }
            assert forall|j: int|
                0 <= j < s.len() implies (is_committed(#[trigger] t[j]) == is_committed(
                #[trigger] s[j]) && (is_committed(s[j]) ==> t[j] == s[j])) by {
                if j == f1 {
                    assert(!is_committed(s[f1]) && !is_committed(v));
                }
            }
            lemma_view_committed_same(s, t, snapshot);
        }
    }
}

/// After a chain takes an uncommitted write by `tx`, the transaction's
/// uncommitted slot holds exactly that page.
proof fn lemma_append_own_slot(s: Seq<VersionV>, tx: usize, p: PageV)
    ensures
        ({
            let t = spec_append_uncommitted(s, tx, p);
            let g = find_uncommitted(t, tx);
            &&& 0 <= g < t.len()
            &&& t[g] == (VersionV { tx_id: tx, commit_index: None, page: p })
            &&& g == if find_uncommitted(s, tx) == -1 {
                s.len() as int
            } else {
                find_uncommitted(s, tx)
            }
        }),
{
    lemma_find_uncommitted_char(s, tx);
    let t = spec_append_uncommitted(s, tx, p);
    lemma_find_uncommitted_char(t, tx);
    let f = find_uncommitted(s, tx);
    let v = VersionV { tx_id: tx, commit_index: None, page: p };
    let g = find_uncommitted(t, tx);
    if f == -1 {
        assert forall|j: int| 0 <= j < s.len() implies t[j] == s[j] by {}
        assert(t[s.len() as int] == v);
        if g == -1 {
            assert(!(!is_committed(t[s.len() as int]) && t[s.len() as int].tx_id == tx));
            assert(false);
        }
        if g < s.len() {
            assert(t[g] == s[g]);
            assert(false);
        }
    } else {
        assert forall|j: int| 0 <= j < t.len() implies t[j] == (if j == f {
            v
        } else {
            s[j]
        }) by {}
        if g == -1 {
            assert(!(!is_committed(t[f]) && t[f].tx_id == tx));
            assert(false);
        }
        if g < f {
            assert(t[g] == s[g]);
            assert(false);
        }
        if f < g {
            assert(!(!is_committed(t[f]) && t[f].tx_id == tx));
            assert(false);
        }
    }
}

proof fn lemma_view_last_committed(u: Seq<VersionV>, q: int, snapshot: usize)
    requires
        0 <= q < u.len(),
        is_committed(u[q]),
        commit_of(u[q]) <= snapshot,
        forall|j: int| q < j < u.len() ==> !is_committed(#[trigger] u[j]),
    ensures
        view_committed(u, snapshot) == Some(u[q].page),
    decreases u.len(),
{
    if q == u.len() - 1 {
    } else {
        assert(!is_committed(u[u.len() - 1]));
        assert forall|j: int| q < j < u.drop_last().len() implies !is_committed(
            #[trigger] u.drop_last()[j],
        ) by {
            assert(u.drop_last()[j] == u[j]);
        }
        assert(u.drop_last()[q] == u[q]);
        lemma_view_last_committed(u.drop_last(), q, snapshot);
    }
}

/// Last writer wins within a transaction: after writing a page twice and
/// committing at `ci`, every snapshot at or past `ci` sees the second
/// write.
pub proof fn lemma_last_writer_wins(
    s: Seq<VersionV>,
    tx: usize,
    p1: PageV,
    p2: PageV,
    ci: usize,
    snapshot: usize,
)
    requires
        chain_inv(s),
        forall|j: int|
            0 <= j < s.len() && is_committed(#[trigger] s[j]) ==> commit_of(s[j]) < ci,
        ci <= snapshot,
    ensures
        view_committed(
            spec_commit(spec_append_uncommitted(spec_append_uncommitted(s, tx, p1), tx, p2), tx, ci),
            snapshot,
        ) == Some(p2),
{
    let s1 = spec_append_uncommitted(s, tx, p1);
    let s2 = spec_append_uncommitted(s1, tx, p2);
    let v2 = VersionV { tx_id: tx, commit_index: None, page: p2 };
    lemma_inv_append_uncommitted(s, tx, p1);
    lemma_inv_append_uncommitted(s1, tx, p2);
    lemma_append_own_slot(s, tx, p1);
    lemma_append_own_slot(s1, tx, p2);
    let q = find_uncommitted(s2, tx);
    assert(s2[q] == v2);
    lemma_find_uncommitted_char(s2, tx);
    let t = s2.remove(q);
    lemma_inv_remove(s2, q);
    // Committed versions pass through both appends and the removal
    // unchanged, all below `ci`.
    let v1 = VersionV { tx_id: tx, commit_index: None, page: p1 };
    assert(s1 == if find_uncommitted(s, tx) == -1 {
        s.push(v1)
    } else {
        s.update(find_uncommitted(s, tx), v1)
    });
    lemma_find_uncommitted_char(s, tx);
    assert forall|j: int|
        0 <= j < s1.len() && is_committed(#[trigger] s1[j]) implies commit_of(s1[j]) < ci by {
        let f = find_uncommitted(s, tx);
        if f == -1 {
            if j < s.len() {
                assert(s1[j] == s[j]);
            } else {
                assert(!is_committed(s1[j]));
            }
        } else {
            if j != f {
                assert(s1[j] == s[j]);
            } else {
                assert(!is_committed(s1[j]));
            }
        }
    }
    assert(s2 == if find_uncommitted(s1, tx) == -1 {
        s1.push(v2)
    } else {
        s1.update(find_uncommitted(s1, tx), v2)
    });
    lemma_find_uncommitted_char(s1, tx);
    assert forall|j: int|
        0 <= j < s2.len() && is_committed(#[trigger] s2[j]) implies commit_of(s2[j]) < ci by {
        let f1 = find_uncommitted(s1, tx);
        if f1 == -1 {
            if j < s1.len() {
                assert(s2[j] == s1[j]);
            } else {
                assert(!is_committed(s2[j]));
            }
        } else {
            if j != f1 {
                assert(s2[j] == s1[j]);
            } else {
                assert(!is_committed(s2[j]));
            }
        }
    }
    assert forall|j: int|
        0 <= j < t.len() && is_committed(#[trigger] t[j]) implies commit_of(t[j]) < ci by {
        if j < q {
            assert(t[j] == s2[j]);
        } else {
            assert(t[j] == s2[j + 1]);
        }
    }
    let vc = VersionV { tx_id: tx, commit_index: Some(ci), page: p2 };
    let cp = committed_position(t, ci);
    lemma_committed_position_char(t, ci);
    let s3 = spec_commit(s2, tx, ci);
    assert(s3 == spec_insert_committed(t, vc));
    // All committed versions sit below `ci`, so no slot is replaced and the
    // commit record lands right after the committed prefix, followed only
    // by uncommitted versions.
    if cp < t.len() && is_committed(t[cp]) && commit_of(t[cp]) == commit_of(vc) {
        assert(commit_of(t[cp]) < ci);
        assert(false);
    }
    assert(s3 == t.insert(cp, vc));
    assert forall|j: int| cp < j < s3.len() implies !is_committed(#[trigger] s3[j]) by {
        assert(s3[j] == t[j - 1]);
        if is_committed(t[j - 1]) {
            assert(commit_of(t[j - 1]) < ci);
            assert(j - 1 >= cp);
            if j - 1 == cp {
            } else {
                assert(chain_inv(t));
                assert(is_committed(t[cp]));
            }
            assert(false);
        }
    }
    assert(s3[cp] == vc);
    lemma_view_last_committed(s3, cp, snapshot);
}

proof fn lemma_view_first_qualifying(u: Seq<VersionV>, q: int, snapshot: usize)
    requires
        0 <= q < u.len(),
        is_committed(u[q]),
        commit_of(u[q]) <= snapshot,
        forall|j: int|
            q < j < u.len() ==> !(is_committed(#[trigger] u[j]) && commit_of(u[j]) <= snapshot),
    ensures
        view_committed(u, snapshot) == Some(u[q].page),
    decreases u.len(),
{
    if q == u.len() - 1 {
    } else {
        assert(!(is_committed(u[u.len() - 1]) && commit_of(u[u.len() - 1]) <= snapshot));
        assert forall|j: int|
            q < j < u.drop_last().len() implies !(is_committed(#[trigger] u.drop_last()[j])
                && commit_of(u.drop_last()[j]) <= snapshot) by {
            assert(u.drop_last()[j] == u[j]);
        }
        assert(u.drop_last()[q] == u[q]);
        lemma_view_first_qualifying(u.drop_last(), q, snapshot);
    }
}

/// Filing a committed version at a snapshot where nothing was visible
/// makes exactly that page visible at the snapshot, for the same reader.
pub proof fn lemma_view_after_insert_committed(c: Seq<VersionV>, tx: usize, snap: usize, p: PageV)
    requires
        chain_inv(c),
        spec_view(c, tx, snap) is None,
    ensures
        spec_view(
            spec_insert_committed(c, VersionV { tx_id: snap, commit_index: Some(snap), page: p }),
            tx,
            snap,
        ) == Some(p),
{
    lemma_find_uncommitted_char(c, tx);
    lemma_view_committed_witness(c, snap);
    let v = VersionV { tx_id: snap, commit_index: Some(snap), page: p };
    lemma_committed_position_char(c, snap);
    let q = committed_position(c, snap);
    assert(q == 0) by {
        if q > 0 {
            assert(is_committed(c[0]) && commit_of(c[0]) < snap);
        }
    }
    assert(!(0 < c.len() && is_committed(c[0]) && commit_of(c[0]) == snap)) by {
        if 0 < c.len() && is_committed(c[0]) && commit_of(c[0]) == snap {
            assert(is_committed(c[0]) && commit_of(c[0]) <= snap);
        }
    }
    let t = spec_insert_committed(c, v);
    assert(t == c.insert(0, v));
    assert forall|j: int| 0 < j < t.len() implies t[j] == c[j - 1] by {}
    lemma_find_uncommitted_char(t, tx);
    assert(find_uncommitted(t, tx) == -1) by {
        if find_uncommitted(t, tx) != -1 {
            let g = find_uncommitted(t, tx);
            assert(!is_committed(t[g]) && t[g].tx_id == tx);
            assert(g > 0);
            assert(!is_committed(c[g - 1]) && c[g - 1].tx_id == tx);
            assert(find_uncommitted(c, tx) != -1) by {
                if find_uncommitted(c, tx) == -1 {
                    assert(!(!is_committed(c[g - 1]) && c[g - 1].tx_id == tx));
                }
            }
        }
    }
    assert forall|j: int|
        0 < j < t.len() implies !(is_committed(#[trigger] t[j]) && commit_of(t[j]) <= snap) by {
        assert(t[j] == c[j - 1]);
    }
    lemma_view_first_qualifying(t, 0, snap);
}

/// A transaction's own uncommitted write is immediately visible to it,
/// at every snapshot.
pub proof fn lemma_own_write_visible(c: Seq<VersionV>, tx: usize, snap: usize, p: PageV)
    ensures
        spec_view(spec_append_uncommitted(c, tx, p), tx, snap) == Some(p),
{
    lemma_append_own_slot(c, tx, p);
    let t = spec_append_uncommitted(c, tx, p);
    let g = find_uncommitted(t, tx);
    assert(t[g] == (VersionV { tx_id: tx, commit_index: None, page: p }));
}

/// A committed write is visible: after a transaction writes a page and
/// commits at `ci`, every snapshot at or past `ci` reads that page back.
pub proof fn lemma_committed_write_visible(
    s: Seq<VersionV>,
    tx: usize,
    p: PageV,
    ci: usize,
    snapshot: usize,
)
    requires
        chain_inv(s),
        forall|j: int|
            0 <= j < s.len() && is_committed(#[trigger] s[j]) ==> commit_of(s[j]) < ci,
        ci <= snapshot,
    ensures
        view_committed(spec_commit(spec_append_uncommitted(s, tx, p), tx, ci), snapshot) == Some(
            p,
        ),
{
    lemma_last_writer_wins(s, tx, p, p, ci, snapshot);
    let s1 = spec_append_uncommitted(s, tx, p);
    let s2 = spec_append_uncommitted(s1, tx, p);
    lemma_append_own_slot(s, tx, p);
    lemma_append_own_slot(s1, tx, p);
    let q = find_uncommitted(s1, tx);
    let v = VersionV { tx_id: tx, commit_index: None, page: p };
    assert(s1[q] == v);
    assert(s2 == s1.update(q, v));
    assert(s2 =~= s1);
}

/// The version chain of one page.
pub struct Mvcc {
    versions: Vec<Version>,
}

impl View for Mvcc {
    type V = Seq<VersionV>;

    closed spec fn view(&self) -> Seq<VersionV> {
        self.versions@.map_values(|v: Version| v@)
    }
}

impl Mvcc {
    pub fn new() -> (r: Mvcc)
        ensures
            r@ =~= Seq::<VersionV>::empty(),
    {
        Mvcc { versions: Vec::new() }
    }

    pub fn is_empty(&self) -> (r: bool)
        ensures
            r == (self@.len() == 0),
    {
        self.versions.len() == 0
    }

    /// Position of the uncommitted version of `tx` in this chain.
    fn find_own(&self, tx: usize) -> (r: Option<usize>)
        ensures
            match r {
                Some(f) => f == find_uncommitted(self@, tx),
                None => find_uncommitted(self@, tx) == -1,
            },
    {
        proof {
            lemma_find_uncommitted_char(self@, tx);
        }
        let ghost f = find_uncommitted(self@, tx);
        let mut i: usize = 0;
        while i < self.versions.len()
            invariant
                0 <= i <= self@.len(),
                f == find_uncommitted(self@, tx),
                f != -1 ==> 0 <= f < self@.len() && !is_committed(self@[f]) && self@[f].tx_id == tx
                    && forall|j: int|
                    0 <= j < f ==> !(!is_committed(#[trigger] self@[j]) && self@[j].tx_id == tx),
                f == -1 ==> forall|j: int|
                    0 <= j < self@.len() ==> !(!is_committed(#[trigger] self@[j]) && self@[j].tx_id
                        == tx),
                forall|j: int|
                    0 <= j < i ==> !(!is_committed(#[trigger] self@[j]) && self@[j].tx_id == tx),
            decreases self@.len() - i,
        {
            let committed = self.versions[i].commit_index.is_some();
            if !committed && self.versions[i].tx_id == tx {
                assert(!is_committed(self@[i as int]) && self@[i as int].tx_id == tx);
                assert(f == i as int);
                return Some(i);
            }
            i = i + 1;
        }
        None
    }

    /// Records an uncommitted write by `tx`, replacing the transaction's
    /// earlier uncommitted write to this page if it made one.
    pub fn append_uncommitted(&mut self, tx: usize, page: Page)
        requires
            chain_inv(old(self)@),
        ensures
            final(self)@ == spec_append_uncommitted(old(self)@, tx, page@),
            chain_inv(final(self)@),
    {
        proof {
            lemma_find_uncommitted_char(self@, tx);
            lemma_inv_append_uncommitted(self@, tx, page@);
        }
        let ghost pv = page@;
        let v = Version { tx_id: tx, commit_index: None, page };
        match self.find_own(tx) {
            Some(f) => {
                let ghost ff = f as int;
                self.versions.set(f, v);
                proof {
                    assert(self@ =~= old(self)@.update(ff, VersionV {
                        tx_id: tx,
                        commit_index: None,
                        page: pv,
                    }));
                }
            },
            None => {
                self.versions.push(v);
                proof {
                    assert(self@ =~= old(self)@.push(VersionV {
                        tx_id: tx,
                        commit_index: None,
                        page: pv,
                    }));
                }
            },
        }
    }

    /// Position at which a committed version with index `ci` belongs.
    fn committed_slot(&self, ci: usize) -> (p: usize)
        ensures
            p == committed_position(self@, ci),
            p <= self@.len(),
    {
        proof {
            lemma_committed_position_char(self@, ci);
        }
        let ghost c = committed_position(self@, ci);
        let mut i: usize = 0;
        while i < self.versions.len()
            invariant
                0 <= i <= self@.len(),
                c == committed_position(self@, ci),
                0 <= c <= self@.len(),
                forall|j: int|
                    0 <= j < c ==> is_committed(#[trigger] self@[j]) && commit_of(self@[j]) < ci,
                c < self@.len() ==> !(is_committed(self@[c]) && commit_of(self@[c]) < ci),
                forall|j: int|
                    0 <= j < i ==> is_committed(#[trigger] self@[j]) && commit_of(self@[j]) < ci,
            decreases self@.len() - i,
        {
            let qualifies = match self.versions[i].commit_index {
                Some(cc) => cc < ci,
                None => false,
            };
            if !qualifies {
                assert(!(is_committed(self@[i as int]) && commit_of(self@[i as int]) < ci));
                assert(c == i as int);
                return i;
            }
            i = i + 1;
        }
        assert(c == i as int);
        i
    }

    /// Files a version that committed at index `ci` into its sorted place;
    /// used when a reader brings a page in from the data file.
    pub fn append_committed(&mut self, ci: usize, page: Page)
        requires
            chain_inv(old(self)@),
        ensures
            final(self)@ == spec_insert_committed(
                old(self)@,
                VersionV { tx_id: ci, commit_index: Some(ci), page: page@ },
            ),
            chain_inv(final(self)@),
    {
        let ghost pv = page@;
        let ghost vv = VersionV { tx_id: ci, commit_index: Some(ci), page: pv };
        proof {
            lemma_inv_insert_committed(self@, vv);
            lemma_committed_position_char(self@, ci);
        }
        let p = self.committed_slot(ci);
        let v = Version { tx_id: ci, commit_index: Some(ci), page };
        let replace = if p < self.versions.len() {
            match self.versions[p].commit_index {
                Some(cc) => cc == ci,
                None => false,
            }
        } else {
            false
        };
        if replace {
            self.versions.set(p, v);
            proof {
                assert(self@ =~= old(self)@.update(p as int, vv));
            }
        } else {
            self.versions.insert(p, v);
            proof {
                assert(self@ =~= old(self)@.insert(p as int, vv));
            }
        }
    }

    /// Promotes the uncommitted version of `tx`, if any, to committed at
    /// log index `ci`.
    pub fn commit(&mut self, tx: usize, ci: usize)
        requires
            chain_inv(old(self)@),
            forall|j: int|
                0 <= j < old(self)@.len() && is_committed(#[trigger] old(self)@[j]) ==> commit_of(
                    old(self)@[j],
                ) < ci,
        ensures
            final(self)@ == spec_commit(old(self)@, tx, ci),
            final(self)@.len() == old(self)@.len(),
            chain_inv(final(self)@),
    {
        let f = match self.find_own(tx) {
            None => {
                return ;
            },
            Some(f) => f,
        };
        let ghost s0 = self@;
        let ghost ff = f as int;
        proof {
            lemma_find_uncommitted_char(s0, tx);
            lemma_inv_remove(s0, ff);
        }
        let removed = self.versions.remove(f);
        proof {
            assert(self@ =~= s0.remove(ff));
        }
        let ghost s1 = self@;
        let ghost vv = VersionV { tx_id: tx, commit_index: Some(ci), page: removed@.page };
        proof {
            assert forall|j: int|
                0 <= j < s1.len() && is_committed(#[trigger] s1[j]) implies commit_of(s1[j])
                != ci by {
                if j < ff {
                    assert(s1[j] == s0[j]);
                } else {
                    assert(s1[j] == s0[j + 1]);
                }
            }
            lemma_inv_insert_committed(s1, vv);
        }
        let p = self.committed_slot(ci);
        proof {
            lemma_committed_position_char(s1, ci);
            assert(p < s1.len() ==> !(is_committed(s1[p as int]) && commit_of(s1[p as int])
                == ci));
        }
        let v = Version { tx_id: tx, commit_index: Some(ci), page: removed.page };
        self.versions.insert(p, v);
        proof {
            assert(self@ =~= s1.insert(p as int, vv));
            assert(self@ == spec_commit(s0, tx, ci));
        }
    }

    /// Drops committed versions older than `upto`; they are redundant once
    /// the version at `upto` is durable in the data file.
    pub fn split_off(&mut self, upto: usize)
        requires
            chain_inv(old(self)@),
        ensures
            final(self)@ == spec_split_off(old(self)@, upto),
            chain_inv(final(self)@),
    {
        proof {
            lemma_committed_position_char(self@, upto);
            lemma_inv_skip(self@, committed_position(self@, upto));
        }
        let ghost s0 = self@;
        let k = self.committed_slot(upto);
        let mut t: usize = 0;
        while t < k
            invariant
                0 <= t <= k,
                k as int == committed_position(s0, upto),
                k <= s0.len(),
                t + self@.len() == s0.len(),
                self@ =~= s0.skip(t as int),
            decreases k - t,
        {
            let ghost before = self@;
            self.versions.remove(0);
            proof {
                assert(self@ =~= before.remove(0));
                assert(before.remove(0) =~= before.skip(1));
                assert(s0.skip(t as int).skip(1) =~= s0.skip(t as int + 1));
            }
            t = t + 1;
        }
        proof {
            assert(self@ =~= s0.skip(committed_position(s0, upto)));
        }
    }

    /// The newest committed version, with its commit index, as a copy.
    pub fn latest_committed(&self) -> (r: Option<(usize, Page)>)
        requires
            chain_inv(self@),
        ensures
            match r {
                Some(p) => spec_latest_committed(self@) == Some((p.0, p.1@)),
                None => spec_latest_committed(self@) is None,
            },
    {
        proof {
            lemma_committed_len_char(self@);
        }
        let ghost cl = committed_len(self@);
        let mut i: usize = 0;
        while i < self.versions.len() && self.versions[i].commit_index.is_some()
            invariant
                0 <= i <= self@.len(),
                cl == committed_len(self@),
                chain_inv(self@),
                0 <= cl <= self@.len(),
                forall|j: int| 0 <= j < self@.len() ==> (is_committed(#[trigger] self@[j]) <==> j < cl),
                forall|j: int| 0 <= j < i ==> is_committed(#[trigger] self@[j]),
            decreases self@.len() - i,
        {
            i = i + 1;
        }
        proof {
            if (i as int) < cl {
                assert(is_committed(self@[i as int]));
            }
            if cl < i as int {
                assert(is_committed(self@[cl]));
            }
        }
        assert(cl == i as int);
        if i == 0 {
            None
        } else {
            let ci = match self.versions[i - 1].commit_index {
                Some(c) => c,
                None => 0,
            };
            Some((ci, self.versions[i - 1].page.copy()))
        }
    }

    /// The page a read by `tx` at `snapshot` sees in this chain, as a copy.
    pub fn view_page(&self, tx: usize, snapshot: usize) -> (r: Option<Page>)
        ensures
            match r {
                Some(p) => spec_view(self@, tx, snapshot) == Some(p@),
                None => spec_view(self@, tx, snapshot) is None,
            },
    {
        proof {
            lemma_find_uncommitted_char(self@, tx);
        }
        match self.find_own(tx) {
            Some(f) => Some(self.versions[f].page.copy()),
            None => {
                let mut i: usize = self.versions.len();
                proof {
                    assert(self@.take(i as int) =~= self@);
                }
                while i > 0
                    invariant
                        0 <= i <= self@.len(),
                        find_uncommitted(self@, tx) == -1,
                        view_committed(self@, snapshot) == view_committed(
                            self@.take(i as int),
                            snapshot,
                        ),
                    decreases i,
                {
                    let qualifies = match self.versions[i - 1].commit_index {
                        Some(cc) => cc <= snapshot,
                        None => false,
                    };
                    proof {
                        assert(self@.take(i as int).len() == i);
                        assert(self@.take(i as int)[i - 1] == self@[i - 1]);
                        assert(self@.take(i as int).drop_last() =~= self@.take(i as int - 1));
                    }
                    if qualifies {
                        assert(view_committed(self@.take(i as int), snapshot) == Some(
                            self@[i - 1].page,
                        ));
                        return Some(self.versions[i - 1].page.copy());
                    }
                    i = i - 1;
                }
                proof {
                    assert(self@.take(0) =~= Seq::<VersionV>::empty());
                }
                None
            },
        }
    }
}

} // verus!
