//! A page: the fixed-size unit of storage. The store reads and writes pages
//! through the page cache and the write-ahead log; the byte image of a page
//! on disk is the concern of the serialization layer at the crate's edge,
//! so a page here carries its content in structured form: raw value bytes,
//! a B+tree node, or the tree header.

use vstd::prelude::*;
use crate::node::{CursorEntry, EntryV, InternalNode, LeafNode, TreeHeader};
use crate::Error;

verus! {

/// Mathematical content of a page.
pub enum PageV {
    Raw(Seq<u8>),
    Node(EntryV),
    Header(usize),
}

/// A page of the store.
pub enum Page {
    /// Value bytes, at most one data page's worth.
    Raw(Vec<u8>),
    /// A B+tree node.
    Node(CursorEntry),
    /// The tree header.
    Header(TreeHeader),
}

impl View for Page {
    type V = PageV;

    open spec fn view(&self) -> PageV {
        match self {
            Page::Raw(b) => PageV::Raw(b@),
            Page::Node(e) => PageV::Node(e@),
            Page::Header(h) => PageV::Header(h@),
        }
    }
}

/// A page is empty when it holds nothing but zero bytes.
pub open spec fn page_is_empty(p: PageV) -> bool {
    match p {
        PageV::Raw(s) => forall|i: int| 0 <= i < s.len() ==> s[i] == 0u8,
        _ => false,
    }
}

impl Page {
    /// The all-zero page an unwritten slot reads back as.
    pub fn new_empty() -> (p: Page)
        ensures
            p@ == PageV::Raw(Seq::<u8>::empty()),
            page_is_empty(p@),
    {
        Page::Raw(Vec::new())
    }

    /// Whether every byte of the page is zero.
    pub fn is_empty(&self) -> (r: bool)
        ensures
            r == page_is_empty(self@),
    {
        match self {
            Page::Raw(b) => {
                let mut i: usize = 0;
                while i < b.len()
                    invariant
                        0 <= i <= b@.len(),
                        self@ == PageV::Raw(b@),
                        forall|j: int| 0 <= j < i ==> b@[j] == 0u8,
                    decreases b@.len() - i,
                {
                    if b[i] != 0 {
                        assert(!page_is_empty(self@)) by {
                            assert(self@ matches PageV::Raw(s) && s[i as int] != 0u8);
                        }
                        return false;
                    }
                    i = i + 1;
                }
                true
            },
            _ => false,
        }
    }

    /// An independent copy with the same content.
    pub fn copy(&self) -> (r: Page)
        ensures
            r@ == self@,
    {
        match self {
            Page::Raw(b) => {
                let c = b.clone();
                proof {
                    assert(c@ =~= b@);
                }
                Page::Raw(c)
            },
            Page::Node(e) => Page::Node(e.copy()),
            Page::Header(h) => Page::Header(TreeHeader::new(h.get_root())),
        }
    }

    /// Reads the page back as value bytes.
    pub fn into_raw(self) -> (r: Result<Vec<u8>, Error>)
        ensures
            match r {
                Ok(b) => self@ == PageV::Raw(b@),
                Err(e) => e == Error::Serialization && !(self@ is Raw),
            },
    {
        match self {
            Page::Raw(b) => Ok(b),
            _ => Err(Error::Serialization),
        }
    }

    /// Reads the page back as a B+tree node.
    pub fn into_entry(self) -> (r: Result<CursorEntry, Error>)
        ensures
            match r {
                Ok(e) => self@ == PageV::Node(e@),
                Err(e) => e == Error::Serialization && !(self@ is Node),
            },
    {
        match self {
            Page::Node(e) => Ok(e),
            _ => Err(Error::Serialization),
        }
    }

    /// Reads the page back as the tree header.
    pub fn into_header(self) -> (r: Result<TreeHeader, Error>)
        ensures
            match r {
                Ok(h) => self@ == PageV::Header(h@),
                Err(e) => e == Error::Serialization && !(self@ is Header),
            },
    {
        match self {
            Page::Header(h) => Ok(h),
            _ => Err(Error::Serialization),
        }
    }
}

impl InternalNode {
    /// An independent copy with the same content.
    pub fn copy(&self) -> (r: InternalNode)
        ensures
            r@ == self@,
    {
        let keys = self.keys.clone();
        let children = self.children.clone();
        proof {
            assert forall|i: int| 0 <= i < keys@.len() implies keys@[i] == self.keys@[i] by {
                assert(cloned::<String>(self.keys@[i], keys@[i]));
            }
            assert(keys@ =~= self.keys@);
            assert(children@ =~= self.children@);
            assert(keys@.map_values(|s: String| s@) =~= self.keys@.map_values(|s: String| s@));
        }
        InternalNode { keys, children }
    }
}

impl LeafNode {
    /// An independent copy with the same content.
    pub fn copy(&self) -> (r: LeafNode)
        ensures
            r@ == self@,
    {
        let mut ks: Vec<(String, usize)> = Vec::new();
        let mut i: usize = 0;
        while i < self.keys.len()
            invariant
                0 <= i <= self.keys@.len(),
                ks@.len() == i,
                forall|j: int| 0 <= j < i ==> #[trigger] ks@[j].0@ == self.keys@[j].0@ && ks@[j].1
                    == self.keys@[j].1,
            decreases self.keys@.len() - i,
        {
            let k = self.keys[i].0.clone();
            let v = self.keys[i].1;
            ks.push((k, v));
            i = i + 1;
        }
        let r = LeafNode { keys: ks, next: self.next };
        proof {
            assert(r@.keys =~= self@.keys);
        }
        r
    }
}

impl CursorEntry {
    /// An independent copy with the same content.
    pub fn copy(&self) -> (r: CursorEntry)
        ensures
            r@ == self@,
    {
        match self {
            CursorEntry::Internal(n) => CursorEntry::Internal(n.copy()),
            CursorEntry::Leaf(n) => CursorEntry::Leaf(n.copy()),
        }
    }
}

} // verus!
