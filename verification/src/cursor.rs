//! The B+tree cursor: one transaction's handle on the store. `get`
//! descends the tree from the header's root to a leaf; `insert` upserts a
//! key, splitting nodes bottom-up as they overflow; `commit` closes the
//! cursor for good.

use vstd::prelude::*;
use crate::keys::lex_lt;
use crate::node::{
    child_index_of, entry_len, entry_sorted, leaf_lookup, CursorEntry, EntryV, InternalNode,
};
use crate::page::{Page, PageV};
use crate::store::{page_at, Store};
use crate::{Error, HEADER_INDEX, MAX_NODE_LEN, PAGE_SIZE};

verus! {

/// Deepest descent the cursor will follow before declaring the tree
/// corrupt; a sound tree never comes close.
pub const TREE_MAX_DEPTH: usize = 64;

/// Where the descent from the page at `index` leads for `key`, with at
/// most `fuel` steps: the value-page index the key is bound to, or
/// nothing — the key is absent, a page is missing, a node is malformed,
/// or the descent is too deep.
pub open spec fn spec_descend(
    s: Store,
    tx: usize,
    snap: usize,
    key: Seq<char>,
    index: usize,
    fuel: nat,
) -> Option<usize>
    decreases fuel,
{
    if fuel == 0 {
        None
    } else {
        match page_at(s, tx, snap, index) {
            Some(PageV::Node(EntryV::Internal(n))) => {
                if n.children.len() >= 1 && n.children.len() == n.keys.len() + 1 {
                    spec_descend(
                        s,
                        tx,
                        snap,
                        key,
                        n.children[child_index_of(n.keys, key)],
                        (fuel - 1) as nat,
                    )
                } else {
                    None
                }
            },
            Some(PageV::Node(EntryV::Leaf(l))) => {
                match leaf_lookup(l.keys, key) {
                    Some(i) => Some(l.keys[i].1),
                    None => None,
                }
            },
            _ => None,
        }
    }
}

/// The value-page index the tree reachable from the header binds the key
/// to, as the reader at `(tx, snap)` sees it.
pub open spec fn spec_find_index(s: Store, tx: usize, snap: usize, key: Seq<char>) -> Option<
    usize,
> {
    match page_at(s, tx, snap, HEADER_INDEX) {
        Some(PageV::Header(root)) => spec_descend(s, tx, snap, key, root, TREE_MAX_DEPTH as nat),
        _ => None,
    }
}

/// The value bytes the store maps the key to, as the reader at
/// `(tx, snap)` sees them.
pub open spec fn spec_get(s: Store, tx: usize, snap: usize, key: Seq<char>) -> Option<Seq<u8>> {
    match spec_find_index(s, tx, snap, key) {
        Some(pi) => match page_at(s, tx, snap, pi) {
            Some(PageV::Raw(b)) => Some(b),
            _ => None,
        },
        None => None,
    }
}

/// Whether the descent from the page at `index` passes through page `pi`
/// within `fuel` steps.
pub open spec fn spec_descend_visits(
    s: Store,
    tx: usize,
    snap: usize,
    key: Seq<char>,
    index: usize,
    fuel: nat,
    pi: usize,
) -> bool
    decreases fuel,
{
    if fuel == 0 {
        false
    } else if index == pi {
        true
    } else {
        match page_at(s, tx, snap, index) {
            Some(PageV::Node(EntryV::Internal(n))) => {
                if n.children.len() >= 1 && n.children.len() == n.keys.len() + 1 {
                    spec_descend_visits(
                        s,
                        tx,
                        snap,
                        key,
                        n.children[child_index_of(n.keys, key)],
                        (fuel - 1) as nat,
                        pi,
                    )
                } else {
                    false
                }
            },
            _ => false,
        }
    }
}

/// Whether the lookup path for `key` — the header page and the descent
/// from the root — passes through page `pi`. In a sound tree the page a
/// key's value lives on is never also a node of its own lookup path; a
/// tree where it is is corrupt.
pub open spec fn lookup_path_hits(s: Store, tx: usize, snap: usize, key: Seq<char>, pi: usize) -> bool {
    pi == HEADER_INDEX || (match page_at(s, tx, snap, HEADER_INDEX) {
        Some(PageV::Header(root)) => spec_descend_visits(
            s,
            tx,
            snap,
            key,
            root,
            TREE_MAX_DEPTH as nat,
            pi,
        ),
        _ => false,
    })
}

/// Two stores whose page views agree everywhere descend identically.
proof fn lemma_descend_congruent(
    s1: Store,
    s2: Store,
    tx: usize,
    snap: usize,
    key: Seq<char>,
    index: usize,
    fuel: nat,
    pi: usize,
)
    requires
        forall|k: usize| #[trigger] page_at(s2, tx, snap, k) == page_at(s1, tx, snap, k),
    ensures
        spec_descend(s2, tx, snap, key, index, fuel) == spec_descend(s1, tx, snap, key, index, fuel),
        spec_descend_visits(s2, tx, snap, key, index, fuel, pi) == spec_descend_visits(
            s1,
            tx,
            snap,
            key,
            index,
            fuel,
            pi,
        ),
    decreases fuel,
{
    if fuel > 0 {
        assert(page_at(s2, tx, snap, index) == page_at(s1, tx, snap, index));
        match page_at(s1, tx, snap, index) {
            Some(PageV::Node(EntryV::Internal(n))) => {
                if n.children.len() >= 1 && n.children.len() == n.keys.len() + 1 {
                    lemma_descend_congruent(
                        s1,
                        s2,
                        tx,
                        snap,
                        key,
                        n.children[child_index_of(n.keys, key)],
                        (fuel - 1) as nat,
                        pi,
                    );
                }
            },
            _ => {},
        }
    }
}

/// Changing the page view at one page leaves every descent that does not
/// pass through that page unchanged.
proof fn lemma_descend_stable(
    s1: Store,
    s2: Store,
    tx: usize,
    snap: usize,
    key: Seq<char>,
    index: usize,
    fuel: nat,
    pi: usize,
)
    requires
        forall|k: usize|
            k != pi ==> #[trigger] page_at(s2, tx, snap, k) == page_at(s1, tx, snap, k),
        !spec_descend_visits(s1, tx, snap, key, index, fuel, pi),
    ensures
        spec_descend(s2, tx, snap, key, index, fuel) == spec_descend(s1, tx, snap, key, index, fuel),
    decreases fuel,
{
    if fuel > 0 {
        assert(index != pi);
        assert(page_at(s2, tx, snap, index) == page_at(s1, tx, snap, index));
        match page_at(s1, tx, snap, index) {
            Some(PageV::Node(EntryV::Internal(n))) => {
                if n.children.len() >= 1 && n.children.len() == n.keys.len() + 1 {
                    lemma_descend_stable(
                        s1,
                        s2,
                        tx,
                        snap,
                        key,
                        n.children[child_index_of(n.keys, key)],
                        (fuel - 1) as nat,
                        pi,
                    );
                }
            },
            _ => {},
        }
    }
}

/// The node the writer's view holds at `k`, if the page is a node.
pub open spec fn node_at(s: Store, tx: usize, snap: usize, k: usize) -> Option<EntryV> {
    match page_at(s, tx, snap, k) {
        Some(PageV::Node(e)) => Some(e),
        _ => None,
    }
}

/// Every key of the node is strictly below `key`.
pub open spec fn entry_keys_below(e: EntryV, key: Seq<char>) -> bool {
    match e {
        EntryV::Internal(n) => forall|i: int|
            0 <= i < n.keys.len() ==> lex_lt(#[trigger] n.keys[i], key),
        EntryV::Leaf(l) => forall|i: int|
            0 <= i < l.keys.len() ==> lex_lt((#[trigger] l.keys[i]).0, key),
    }
}

/// No key of the node is below `key`.
pub open spec fn entry_keys_at_or_above(e: EntryV, key: Seq<char>) -> bool {
    match e {
        EntryV::Internal(n) => forall|i: int|
            0 <= i < n.keys.len() ==> !lex_lt(#[trigger] n.keys[i], key),
        EntryV::Leaf(l) => forall|i: int|
            0 <= i < l.keys.len() ==> !lex_lt((#[trigger] l.keys[i]).0, key),
    }
}

/// The leaf binds `key` to page `pb`.
pub open spec fn entry_binds(e: EntryV, key: Seq<char>, pb: usize) -> bool {
    match e {
        EntryV::Leaf(l) => exists|i: int|
            0 <= i < l.keys.len() && #[trigger] l.keys[i] == (key, pb),
        _ => false,
    }
}

/// In the writer's view, the leaf at `at` binds `key` to a page holding
/// exactly the value bytes.
pub open spec fn key_bound_at(
    s: Store,
    tx: usize,
    snap: usize,
    at: usize,
    key: Seq<char>,
    val: Seq<u8>,
) -> bool {
    exists|pb: usize|
        (node_at(s, tx, snap, at) matches Some(e) && entry_binds(e, key, pb)) && #[trigger] page_at(
            s,
            tx,
            snap,
            pb,
        ) == Some(PageV::Raw(val))
}

/// A write's effect on the writer's own page view.
proof fn lemma_write_page_view(
    pre: Store,
    post: Store,
    tx: usize,
    snap: usize,
    idx: usize,
    p: PageV,
)
    requires
        post.chain_at(idx) == Some(
            crate::mvcc::spec_append_uncommitted(
                match pre.chain_at(idx) {
                    Some(c) => c,
                    None => Seq::<crate::mvcc::VersionV>::empty(),
                },
                tx,
                p,
            ),
        ),
    ensures
        page_at(post, tx, snap, idx) == Some(p),
{
    let c0 = match pre.chain_at(idx) {
        Some(c) => c,
        None => Seq::<crate::mvcc::VersionV>::empty(),
    };
    crate::mvcc::lemma_own_write_visible(c0, tx, snap, p);
}

/// One transaction's cursor. `Open` until `commit`; `Closed` is terminal.
pub struct Cursor {
    tx_id: usize,
    snapshot: usize,
    committed: bool,
}

impl Cursor {
    /// The cursor's transaction id.
    pub closed spec fn tx_of(self) -> usize {
        self.tx_id
    }

    /// The log index fixed at transaction start: what this reader sees.
    pub closed spec fn snapshot_of(self) -> usize {
        self.snapshot
    }

    /// Whether `commit` has closed this cursor.
    pub closed spec fn is_closed(self) -> bool {
        self.committed
    }

    pub fn new(tx_id: usize, snapshot: usize) -> (r: Cursor)
        ensures
            r.tx_of() == tx_id,
            r.snapshot_of() == snapshot,
            !r.is_closed(),
    {
        Cursor { tx_id, snapshot, committed: false }
    }

    /// The transaction id this cursor operates under.
    pub fn transaction_id(&self) -> (r: usize)
        ensures
            r == self.tx_of(),
    {
        self.tx_id
    }

    /// The cursor was issued against this store's current counters.
    pub open spec fn valid_for(self, s: Store) -> bool {
        &&& self.snapshot_of() <= s.last_lsn()
        &&& self.tx_of() <= s.last_tx()
    }

    /// Looks the key up and returns its value bytes.
    pub fn get(&self, store: &mut Store, key: &String) -> (r: Result<Vec<u8>, Error>)
        requires
            old(store).wf(),
            self.valid_for(*old(store)),
        ensures
            final(store).wf(),
            self.valid_for(*final(store)),
            final(store).last_lsn() == old(store).last_lsn(),
            final(store).last_tx() == old(store).last_tx(),
            forall|t: usize| final(store).buffered(t) == old(store).buffered(t),
            final(store).wal_view() == old(store).wal_view(),
            final(store).data_view() == old(store).data_view(),
            final(store).alloc_head() == old(store).alloc_head(),
            self.is_closed() <==> r == Err::<Vec<u8>, Error>(Error::TransactionClosed),
            self.is_closed() ==> *final(store) == *old(store),
            !self.is_closed() ==> (match spec_get(
                *old(store),
                self.tx_of(),
                self.snapshot_of(),
                key@,
            ) {
                Some(b) => r matches Ok(v) && v@ == b,
                None => r is Err,
            }),
    {
        if self.committed {
            return Err(Error::TransactionClosed);
        }
        let i = self.get_index(store, key.as_str())?;
        let page = self.read(store, i)?;
        match page.into_raw() {
            Ok(b) => Ok(b),
            Err(e) => Err(e),
        }
    }

    /// Upserts a key: overwrites the value page when the key exists, else
    /// descends, writes the value to a fresh page, and splits overfull
    /// nodes on the way back up, growing a new root when the split reaches
    /// the top.
    pub fn insert(&self, store: &mut Store, key: String, value: Vec<u8>) -> (r: Result<(), Error>)
        requires
            old(store).wf(),
            self.valid_for(*old(store)),
        ensures
            final(store).wf(),
            self.valid_for(*final(store)),
            final(store).last_tx() == old(store).last_tx(),
            self.is_closed() <==> r == Err::<(), Error>(Error::TransactionClosed),
            self.is_closed() ==> *final(store) == *old(store),
            !self.is_closed() && spec_find_index(
                *old(store),
                self.tx_of(),
                self.snapshot_of(),
                key@,
            ) is Some ==> final(store).alloc_head() == old(store).alloc_head(),
            !self.is_closed() && old(store).spec_room() && value@.len() <= PAGE_SIZE
                && spec_find_index(*old(store), self.tx_of(), self.snapshot_of(), key@) is Some
                ==> r is Ok,
            !self.is_closed() && r is Ok ==> (match spec_find_index(
                *old(store),
                self.tx_of(),
                self.snapshot_of(),
                key@,
            ) {
                Some(pi) => spec_get(*final(store), self.tx_of(), self.snapshot_of(), key@)
                    == Some(value@) || lookup_path_hits(
                    *old(store),
                    self.tx_of(),
                    self.snapshot_of(),
                    key@,
                    pi,
                ),
                None => true,
            }),
    {
        if self.committed {
            return Err(Error::TransactionClosed);
        }
        if value.len() > PAGE_SIZE {
            return Err(Error::Serialization);
        }
        let ghost s_old = *old(store);
        let ghost tx = self.tx_of();
        let ghost snap = self.snapshot_of();
        match self.get_index(store, key.as_str()) {
            Ok(index) => {
                let ghost s_mid = *store;
                let ghost vv = value@;
                self.write(store, index, Page::Raw(value))?;
                proof {
                    let s_fin = *store;
                    if !lookup_path_hits(s_old, tx, snap, key@, index) {
                        // The lookup path avoids the value page, so the
                        // overwrite leaves the descent unchanged and the
                        // writer reads its own bytes back.
                        let root = match page_at(s_old, tx, snap, HEADER_INDEX) {
                            Some(PageV::Header(root)) => root,
                            _ => 0,
                        };
                        assert forall|k: usize|
                            k != index implies #[trigger] page_at(s_fin, tx, snap, k) == page_at(
                            s_mid,
                            tx,
                            snap,
                            k,
                        ) by {
                            assert(s_fin.chain_at(k) == s_mid.chain_at(k));
                            assert(s_fin.data_view() == s_mid.data_view());
                        }
                        lemma_descend_congruent(
                            s_old,
                            s_mid,
                            tx,
                            snap,
                            key@,
                            root,
                            TREE_MAX_DEPTH as nat,
                            index,
                        );
                        lemma_descend_stable(
                            s_mid,
                            s_fin,
                            tx,
                            snap,
                            key@,
                            root,
                            TREE_MAX_DEPTH as nat,
                            index,
                        );
                        assert(page_at(s_fin, tx, snap, HEADER_INDEX) == page_at(
                            s_mid,
                            tx,
                            snap,
                            HEADER_INDEX,
                        ));
                        assert(spec_find_index(s_fin, tx, snap, key@) == Some(index));
                        let c0 = match s_mid.chain_at(index) {
                            Some(c) => c,
                            None => Seq::<crate::mvcc::VersionV>::empty(),
                        };
                        crate::mvcc::lemma_own_write_visible(c0, tx, snap, PageV::Raw(vv));
                        assert(page_at(s_fin, tx, snap, index) == Some(PageV::Raw(vv)));
                        assert(spec_get(s_fin, tx, snap, key@) == Some(vv));
                    }
                }
                Ok(())
            },
            Err(Error::NotFound) => {
                let header_page = self.read(store, HEADER_INDEX)?;
                let mut header = header_page.into_header()?;
                let root = header.get_root();
                match self.append_at(store, root, key, &value, TREE_MAX_DEPTH)? {
                    Ok((s, i)) => {
                        let nri = store.acquire_index()?;
                        let new_root = CursorEntry::Internal(InternalNode::new(s, root, i));
                        self.write(store, nri, Page::Node(new_root))?;
                        header.set_root(nri);
                        self.write(store, HEADER_INDEX, Page::Header(header))?;
                        Ok(())
                    },
                    Err(_) => Ok(()),
                }
            },
            Err(err) => Err(err),
        }
    }

    /// Commits the transaction and closes the cursor: further reads and
    /// writes through it fail.
    pub fn commit(&mut self, store: &mut Store) -> (r: Result<(), Error>)
        requires
            old(store).wf(),
            old(self).valid_for(*old(store)),
        ensures
            final(store).wf(),
            final(store).last_tx() == old(store).last_tx(),
            final(self).tx_of() == old(self).tx_of(),
            final(self).snapshot_of() == old(self).snapshot_of(),
            old(store).spec_room() ==> r is Ok,
            r is Ok ==> final(self).is_closed(),
            r is Ok ==> old(store).last_lsn() < final(store).last_lsn(),
            r is Ok ==> exists|ci: usize|
                #[trigger] crate::store::commit_effect(
                    *old(store),
                    *final(store),
                    old(self).tx_of(),
                    ci,
                ),
            r is Err ==> *final(self) == *old(self),
    {
        match store.commit_tx(self.tx_id) {
            Ok(ci) => {
                self.committed = true;
                proof {
                    assert(crate::store::commit_effect(*old(store), *store, self.tx_id, ci));
                }
                Ok(())
            },
            Err(e) => Err(e),
        }
    }

    /// Reads a page at this cursor's snapshot.
    fn read(&self, store: &mut Store, index: usize) -> (r: Result<Page, Error>)
        requires
            old(store).wf(),
            self.valid_for(*old(store)),
        ensures
            final(store).wf(),
            self.valid_for(*final(store)),
            final(store).last_lsn() == old(store).last_lsn(),
            final(store).last_tx() == old(store).last_tx(),
            forall|t: usize| final(store).buffered(t) == old(store).buffered(t),
            final(store).wal_view() == old(store).wal_view(),
            final(store).data_view() == old(store).data_view(),
            final(store).alloc_head() == old(store).alloc_head(),
            final(store).spec_room() == old(store).spec_room(),
            forall|k: usize|
                #[trigger] page_at(*final(store), self.tx_of(), self.snapshot_of(), k) == page_at(
                    *old(store),
                    self.tx_of(),
                    self.snapshot_of(),
                    k,
                ),
            match r {
                Ok(p) => page_at(*old(store), self.tx_of(), self.snapshot_of(), index) == Some(
                    p@,
                ),
                Err(e) => e == Error::NotFound && page_at(
                    *old(store),
                    self.tx_of(),
                    self.snapshot_of(),
                    index,
                ) is None,
            },
    {
        store.read_page(self.tx_id, self.snapshot, index)
    }

    /// Writes a page under this cursor's transaction.
    fn write(&self, store: &mut Store, index: usize, page: Page) -> (r: Result<(), Error>)
        requires
            old(store).wf(),
            self.valid_for(*old(store)),
        ensures
            final(store).wf(),
            self.valid_for(*final(store)),
            final(store).last_tx() == old(store).last_tx(),
            old(store).last_lsn() <= final(store).last_lsn(),
            final(store).alloc_head() == old(store).alloc_head(),
            final(store).data_view() == old(store).data_view(),
            old(store).spec_room() ==> r is Ok,
            r is Ok ==> final(store).chain_at(index) == Some(
                crate::mvcc::spec_append_uncommitted(
                    match old(store).chain_at(index) {
                        Some(c) => c,
                        None => Seq::<crate::mvcc::VersionV>::empty(),
                    },
                    self.tx_of(),
                    page@,
                ),
            ),
            r is Ok ==> forall|k: usize|
                k != index ==> final(store).chain_at(k) == old(store).chain_at(k),
            r matches Err(e) ==> e == Error::Io,
    {
        store.write_page(self.tx_id, index, page)
    }

    /// Descends from the root to the page index holding the key's value.
    fn get_index(&self, store: &mut Store, key: &str) -> (r: Result<usize, Error>)
        requires
            old(store).wf(),
            self.valid_for(*old(store)),
        ensures
            final(store).wf(),
            self.valid_for(*final(store)),
            final(store).last_lsn() == old(store).last_lsn(),
            final(store).last_tx() == old(store).last_tx(),
            forall|t: usize| final(store).buffered(t) == old(store).buffered(t),
            final(store).wal_view() == old(store).wal_view(),
            final(store).data_view() == old(store).data_view(),
            final(store).alloc_head() == old(store).alloc_head(),
            final(store).spec_room() == old(store).spec_room(),
            forall|k: usize|
                #[trigger] page_at(*final(store), self.tx_of(), self.snapshot_of(), k) == page_at(
                    *old(store),
                    self.tx_of(),
                    self.snapshot_of(),
                    k,
                ),
            match spec_find_index(*old(store), self.tx_of(), self.snapshot_of(), key@) {
                Some(i) => r == Ok::<usize, Error>(i),
                None => r is Err,
            },
            r matches Err(e) ==> e != Error::TransactionClosed,
    {
        let ghost s0 = *old(store);
        let ghost tx = self.tx_of();
        let ghost snap = self.snapshot_of();
        let header_page = self.read(store, HEADER_INDEX)?;
        let header = match header_page.into_header() {
            Ok(h) => h,
            Err(e) => {
                return Err(e);
            },
        };
        let mut index = header.get_root();
        let mut depth: usize = 0;
        proof {
            assert(page_at(s0, tx, snap, HEADER_INDEX) == Some(PageV::Header(header@)));
        }
        while depth < TREE_MAX_DEPTH
            invariant
                store.wf(),
                self.valid_for(*store),
                store.last_lsn() == old(store).last_lsn(),
                store.last_tx() == old(store).last_tx(),
                forall|t: usize| store.buffered(t) == old(store).buffered(t),
                store.wal_view() == old(store).wal_view(),
                store.data_view() == old(store).data_view(),
                store.alloc_head() == old(store).alloc_head(),
                s0 == *old(store),
                store.spec_room() == old(store).spec_room(),
                tx == self.tx_of(),
                snap == self.snapshot_of(),
                0 <= depth <= TREE_MAX_DEPTH,
                forall|k: usize|
                    #[trigger] page_at(*store, tx, snap, k) == page_at(s0, tx, snap, k),
                spec_find_index(s0, tx, snap, key@) == spec_descend(
                    s0,
                    tx,
                    snap,
                    key@,
                    index,
                    (TREE_MAX_DEPTH - depth) as nat,
                ),
            decreases TREE_MAX_DEPTH - depth,
        {
            let ghost fuel = (TREE_MAX_DEPTH - depth) as nat;
            let page = match self.read(store, index) {
                Ok(p) => p,
                Err(e) => {
                    proof {
                        assert(spec_descend(s0, tx, snap, key@, index, fuel) is None);
                    }
                    return Err(e);
                },
            };
            proof {
                assert(page_at(s0, tx, snap, index) == Some(page@));
            }
            let entry = match page.into_entry() {
                Ok(e) => e,
                Err(e) => {
                    proof {
                        assert(spec_descend(s0, tx, snap, key@, index, fuel) is None);
                    }
                    return Err(e);
                },
            };
            if let CursorEntry::Internal(n) = &entry {
                if n.children.len() == 0 || n.children.len() - 1 != n.keys.len() {
                    proof {
                        assert(spec_descend(s0, tx, snap, key@, index, fuel) is None);
                    }
                    return Err(Error::Serialization);
                }
            }
            match entry.find_or_next(key) {
                Ok(i) => {
                    proof {
                        assert(spec_descend(s0, tx, snap, key@, index, fuel) == Some(i));
                    }
                    return Ok(i);
                },
                Err(n) => match n {
                    Some(i) => {
                        proof {
                            assert(spec_descend(s0, tx, snap, key@, index, fuel) == spec_descend(
                                s0,
                                tx,
                                snap,
                                key@,
                                i,
                                (fuel - 1) as nat,
                            ));
                        }
                        index = i;
                    },
                    None => {
                        proof {
                            assert(spec_descend(s0, tx, snap, key@, index, fuel) is None);
                        }
                        return Err(Error::NotFound);
                    },
                },
            }
            depth = depth + 1;
        }
        Err(Error::Serialization)
    }

    /// Inserts below the node at `current`; the nested result reports a
    /// split (separator and fresh right-hand page) or, without a split,
    /// possibly a new minimum key to propagate.
    /// Inserts below the node at `current`; the nested result reports a
    /// split (separator and fresh right-hand page) or, without a split,
    /// possibly a new minimum key to propagate. On a split both halves are
    /// persisted in the writer's view, sorted, within the node-size bound,
    /// with every key of the lower half below the separator and none of
    /// the upper half's below it. When `current` was a leaf, a successful
    /// call leaves the key bound, in the writer's view, to a page holding
    /// exactly the value bytes — in the leaf itself, or in whichever half
    /// of a split took it.
    fn append_at(
        &self,
        store: &mut Store,
        current: usize,
        key: String,
        value: &Vec<u8>,
        fuel: usize,
    ) -> (r: Result<Result<(String, usize), Option<String>>, Error>)
        requires
            old(store).wf(),
            self.valid_for(*old(store)),
        ensures
            final(store).wf(),
            self.valid_for(*final(store)),
            final(store).last_tx() == old(store).last_tx(),
            r matches Err(e) ==> e != Error::TransactionClosed,
            r matches Ok(inner) ==> (match inner {
                Ok((sep, ni)) => ({
                    &&& ni != current
                    &&& (node_at(*final(store), self.tx_of(), self.snapshot_of(), current)
                        matches Some(el) && entry_sorted(el) && entry_len(el) <= MAX_NODE_LEN
                        && entry_keys_below(el, sep@))
                    &&& (node_at(*final(store), self.tx_of(), self.snapshot_of(), ni)
                        matches Some(er) && entry_sorted(er) && entry_len(er) <= MAX_NODE_LEN
                        && entry_keys_at_or_above(er, sep@))
                    &&& (node_at(*old(store), self.tx_of(), self.snapshot_of(), current)
                        matches Some(EntryV::Leaf(_)) ==> key_bound_at(
                        *final(store),
                        self.tx_of(),
                        self.snapshot_of(),
                        current,
                        key@,
                        value@,
                    ) || key_bound_at(
                        *final(store),
                        self.tx_of(),
                        self.snapshot_of(),
                        ni,
                        key@,
                        value@,
                    ))
                }),
                Err(_) => (node_at(*old(store), self.tx_of(), self.snapshot_of(), current)
                    matches Some(EntryV::Leaf(_)) ==> ({
                    &&& (node_at(*final(store), self.tx_of(), self.snapshot_of(), current)
                        matches Some(e) && entry_sorted(e) && entry_len(e) <= MAX_NODE_LEN)
                    &&& key_bound_at(
                        *final(store),
                        self.tx_of(),
                        self.snapshot_of(),
                        current,
                        key@,
                        value@,
                    )
                })),
            }),
        decreases fuel,
    {
        let ghost tx = self.tx_of();
        let ghost snap = self.snapshot_of();
        if fuel == 0 {
            return Err(Error::Serialization);
        }
        let page = self.read(store, current)?;
        let entry = page.into_entry()?;
        if !entry.well_formed() {
            return Err(Error::Serialization);
        }
        let ghost s_rd = *store;
        proof {
            assert(page_at(s_rd, tx, snap, current) == Some(PageV::Node(entry@)));
            assert(node_at(*old(store), tx, snap, current) == Some(entry@));
        }
        match entry {
            CursorEntry::Internal(mut node) => {
                let pos = node.child_pos(key.as_str());
                let i = node.children[pos];
                match self.append_at(store, i, key, value, fuel - 1)? {
                    Ok((s, ni)) => {
                        if node.contains_key(s.as_str()) {
                            return Err(Error::Serialization);
                        }
                        let ghost ks0 = node@.keys;
                        let ghost cs0 = node@.children;
                        let ghost sv = s@;
                        node.add(s, ni);
                        proof {
                            crate::node::lemma_child_index_char(ks0, sv);
                            crate::node::lemma_keys_insert_sorted(ks0, sv);
                            assert(node@.keys.len() == ks0.len() + 1);
                            assert(node@.children.len() == cs0.len() + 1);
                            assert(node@.children.len() == node@.keys.len() + 1);
                        }
                        if node.len() <= MAX_NODE_LEN {
                            self.write(store, current, Page::Node(CursorEntry::Internal(node)))?;
                            return Ok(Err(None));
                        }
                        let ghost ks1 = node@.keys;
                        proof {
                            assert(ks1.len() == 9);
                        }
                        let (n, s) = node.split();
                        let new_i = store.acquire_index()?;
                        if new_i == current {
                            return Err(Error::Serialization);
                        }
                        let ghost lo = node@;
                        let ghost hi = n@;
                        let ghost sepv = s@;
                        let ghost mid = ks1.len() as int / 2;
                        proof {
                            assert(lo.keys =~= ks1.take(mid));
                            assert(hi.keys =~= ks1.skip(mid + 1));
                            assert(sepv == ks1[mid]);
                            assert(crate::node::keys_sorted(lo.keys)) by {
                                assert forall|a: int, b: int|
                                    0 <= a < b < lo.keys.len() implies lex_lt(
                                    #[trigger] lo.keys[a],
                                    #[trigger] lo.keys[b],
                                ) by {
                                    assert(lo.keys[a] == ks1[a] && lo.keys[b] == ks1[b]);
                                }
                            }
                            assert(crate::node::keys_sorted(hi.keys)) by {
                                assert forall|a: int, b: int|
                                    0 <= a < b < hi.keys.len() implies lex_lt(
                                    #[trigger] hi.keys[a],
                                    #[trigger] hi.keys[b],
                                ) by {
                                    assert(hi.keys[a] == ks1[a + mid + 1] && hi.keys[b] == ks1[b
                                        + mid + 1]);
                                }
                            }
                            assert(entry_keys_below(EntryV::Internal(lo), sepv)) by {
                                assert forall|a: int| 0 <= a < lo.keys.len() implies lex_lt(
                                    #[trigger] lo.keys[a],
                                    sepv,
                                ) by {
                                    assert(lo.keys[a] == ks1[a]);
                                }
                            }
                            assert(entry_keys_at_or_above(EntryV::Internal(hi), sepv)) by {
                                assert forall|a: int| 0 <= a < hi.keys.len() implies !lex_lt(
                                    #[trigger] hi.keys[a],
                                    sepv,
                                ) by {
                                    assert(hi.keys[a] == ks1[a + mid + 1]);
                                    assert(lex_lt(sepv, ks1[a + mid + 1]));
                                    crate::keys::lemma_lex_total(hi.keys[a], sepv);
                                }
                            }
                        }
                        let ghost s_a = *store;
                        self.write(store, new_i, Page::Node(CursorEntry::Internal(n)))?;
                        let ghost s_b = *store;
                        self.write(store, current, Page::Node(CursorEntry::Internal(node)))?;
                        proof {
                            let s_fin = *store;
                            lemma_write_page_view(
                                s_b,
                                s_fin,
                                tx,
                                snap,
                                current,
                                PageV::Node(EntryV::Internal(lo)),
                            );
                            lemma_write_page_view(
                                s_a,
                                s_b,
                                tx,
                                snap,
                                new_i,
                                PageV::Node(EntryV::Internal(hi)),
                            );
                            assert(s_fin.chain_at(new_i) == s_b.chain_at(new_i));
                            assert(s_fin.data_view() == s_b.data_view());
                            assert(page_at(s_fin, tx, snap, new_i) == page_at(s_b, tx, snap, new_i));
                        }
                        Ok(Ok((s, new_i)))
                    },
                    Err(oi) => {
                        if let Some(s) = oi {
                            // The child's minimum key changed: lower this
                            // node's separator for it, or pass the new
                            // minimum further up for the leftmost child.
                            if pos > 0 {
                                let p = pos - 1;
                                let repl = matches!(
                                    crate::keys::key_compare(s.as_str(), node.keys[p].as_str()),
                                    crate::keys::KeyOrd::Lt,
                                );
                                if repl {
                                    node.keys.set(p, s);
                                    self.write(
                                        store,
                                        current,
                                        Page::Node(CursorEntry::Internal(node)),
                                    )?;
                                }
                                return Ok(Err(None));
                            }
                            return Ok(Err(Some(s)));
                        }
                        Ok(Err(None))
                    },
                }
            },
            CursorEntry::Leaf(mut node) => {
                proof {
                    crate::node::lemma_leaf_lookup_char(node@.keys, key@);
                }
                let ghost l0 = node@;
                if let Some(i) = node.find(key.as_str()) {
                    let vi = node.value_at(i);
                    if vi == current {
                        return Err(Error::Serialization);
                    }
                    let vcopy = value.clone();
                    proof {
                        assert(vcopy@ =~= value@);
                    }
                    let ghost s_v0 = *store;
                    self.write(store, vi, Page::Raw(vcopy))?;
                    proof {
                        let s_fin = *store;
                        lemma_write_page_view(s_v0, s_fin, tx, snap, vi, PageV::Raw(value@));
                        assert(s_fin.chain_at(current) == s_v0.chain_at(current));
                        assert(s_fin.data_view() == s_v0.data_view());
                        assert(page_at(s_fin, tx, snap, current) == page_at(
                            s_v0,
                            tx,
                            snap,
                            current,
                        ));
                        assert(entry_binds(EntryV::Leaf(l0), key@, vi)) by {
                            assert(l0.keys[i as int] == (key@, vi));
                        }
                        assert(key_bound_at(s_fin, tx, snap, current, key@, value@)) by {
                            assert((node_at(s_fin, tx, snap, current) matches Some(e)
                                && entry_binds(e, key@, vi)) && page_at(s_fin, tx, snap, vi)
                                == Some(PageV::Raw(value@)));
                        }
                    }
                    return Ok(Err(None));
                }
                let pi = store.acquire_index()?;
                if pi == current {
                    return Err(Error::Serialization);
                }
                let vcopy = value.clone();
                proof {
                    assert(vcopy@ =~= value@);
                }
                let ghost s_v0 = *store;
                self.write(store, pi, Page::Raw(vcopy))?;
                let ghost s_v1 = *store;
                proof {
                    lemma_write_page_view(s_v0, s_v1, tx, snap, pi, PageV::Raw(value@));
                }
                let ghost kv = key@;
                proof {
                    crate::node::lemma_leaf_position_char(l0.keys, kv);
                    crate::node::lemma_leaf_insert_sorted(l0.keys, kv, pi);
                }
                let ghost ppos = crate::node::leaf_position_of(l0.keys, kv);
                let lk = node.add(key, pi);
                let ghost l1 = node@;
                proof {
                    assert(l1.keys == l0.keys.insert(ppos, (kv, pi)));
                    assert(l1.keys[ppos] == (kv, pi));
                }
                if node.len() <= MAX_NODE_LEN {
                    let ghost s_w0 = *store;
                    self.write(store, current, Page::Node(CursorEntry::Leaf(node)))?;
                    proof {
                        let s_fin = *store;
                        lemma_write_page_view(
                            s_w0,
                            s_fin,
                            tx,
                            snap,
                            current,
                            PageV::Node(EntryV::Leaf(l1)),
                        );
                        assert(s_fin.chain_at(pi) == s_w0.chain_at(pi));
                        assert(s_fin.data_view() == s_w0.data_view());
                        assert(page_at(s_fin, tx, snap, pi) == page_at(s_v1, tx, snap, pi));
                        assert(key_bound_at(s_fin, tx, snap, current, key@, value@)) by {
                            assert((node_at(s_fin, tx, snap, current) matches Some(e)
                                && entry_binds(e, kv, pi)) && page_at(s_fin, tx, snap, pi)
                                == Some(PageV::Raw(value@)));
                        }
                    }
                    return Ok(Err(lk));
                }
                proof {
                    assert(l1.keys.len() == 9);
                }
                let ni = store.acquire_index()?;
                if ni == current {
                    return Err(Error::Serialization);
                }
                proof {
                    assert(ni == pi + 1);
                }
                let (n, s) = node.split(ni);
                let ghost lo = node@;
                let ghost hi = n@;
                let ghost sepv = s@;
                let ghost mid = l1.keys.len() as int / 2;
                proof {
                    assert(lo.keys =~= l1.keys.take(mid));
                    assert(hi.keys =~= l1.keys.skip(mid));
                    assert(sepv == l1.keys[mid].0);
                    crate::node::lemma_split_order(l1.keys, mid);
                    assert(entry_keys_at_or_above(EntryV::Leaf(hi), sepv)) by {
                        assert forall|a: int| 0 <= a < hi.keys.len() implies !lex_lt(
                            (#[trigger] hi.keys[a]).0,
                            sepv,
                        ) by {
                            assert(hi.keys[a] == l1.keys[a + mid]);
                            if a == 0 {
                                crate::keys::lemma_lex_irrefl(sepv);
                            } else {
                                assert(lex_lt(sepv, l1.keys[a + mid].0));
                                crate::keys::lemma_lex_total(hi.keys[a].0, sepv);
                            }
                        }
                    }
                }
                let ghost s_a = *store;
                self.write(store, ni, Page::Node(CursorEntry::Leaf(n)))?;
                let ghost s_b = *store;
                self.write(store, current, Page::Node(CursorEntry::Leaf(node)))?;
                proof {
                    let s_fin = *store;
                    lemma_write_page_view(s_b, s_fin, tx, snap, current, PageV::Node(
                        EntryV::Leaf(lo),
                    ));
                    lemma_write_page_view(s_a, s_b, tx, snap, ni, PageV::Node(EntryV::Leaf(hi)));
                    assert(s_fin.chain_at(ni) == s_b.chain_at(ni));
                    assert(s_fin.data_view() == s_b.data_view());
                    assert(page_at(s_fin, tx, snap, ni) == page_at(s_b, tx, snap, ni));
                    assert(s_b.chain_at(pi) == s_a.chain_at(pi) && s_fin.chain_at(pi)
                        == s_b.chain_at(pi));
                    assert(page_at(s_fin, tx, snap, pi) == page_at(s_v1, tx, snap, pi));
                    if ppos < mid {
                        assert(lo.keys[ppos] == (kv, pi));
                        assert(key_bound_at(s_fin, tx, snap, current, key@, value@)) by {
                            assert((node_at(s_fin, tx, snap, current) matches Some(e)
                                && entry_binds(e, kv, pi)) && page_at(s_fin, tx, snap, pi)
                                == Some(PageV::Raw(value@)));
                        }
                    } else {
                        assert(hi.keys[ppos - mid] == (kv, pi));
                        assert(key_bound_at(s_fin, tx, snap, ni, key@, value@)) by {
                            assert((node_at(s_fin, tx, snap, ni) matches Some(e) && entry_binds(
                                e,
                                kv,
                                pi,
                            )) && page_at(s_fin, tx, snap, pi) == Some(PageV::Raw(value@)));
                        }
                    }
                }
                Ok(Ok((s, ni)))
            },
        }
    }
}

} // verus!
