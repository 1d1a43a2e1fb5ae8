//! In-memory models of the two page-indexed files the store works against:
//! the data file of pages and the log file of packed record entries. A slot
//! never written reads back as absent, as the file layer reports a short
//! read, end of file, or an all-zero page. A written slot always reads
//! back: the page-to-buffer bijection that serializes these pages on a
//! real file never produces the all-zero image, which marks free slots —
//! a page here is structured content, not the raw buffer.

use vstd::prelude::*;
use crate::page::{Page, PageV};
use crate::record::{LogEntry, RecordV};
use crate::Error;

verus! {

/// The data file: an array of pages indexed from zero.
pub struct PageFile {
    slots: Vec<Option<Page>>,
}

impl View for PageFile {
    type V = Seq<Option<PageV>>;

    closed spec fn view(&self) -> Seq<Option<PageV>> {
        self.slots@.map_values(
            |o: Option<Page>|
                match o {
                    Some(p) => Some(p@),
                    None => None,
                },
        )
    }
}

impl PageFile {
    pub fn new() -> (r: PageFile)
        ensures
            r@ =~= Seq::<Option<PageV>>::empty(),
    {
        let r = PageFile { slots: Vec::new() };
        proof {
            assert(r@ =~= Seq::<Option<PageV>>::empty());
        }
        r
    }

    /// Reads the page at `index`; an unwritten or out-of-range slot is not
    /// found.
    pub fn read(&self, index: usize) -> (r: Result<Page, Error>)
        ensures
            match r {
                Ok(p) => index < self@.len() && self@[index as int] == Some(p@),
                Err(e) => e == Error::NotFound && (index >= self@.len() || self@[index as int]
                    is None),
            },
    {
        if index >= self.slots.len() {
            return Err(Error::NotFound);
        }
        match &self.slots[index] {
            Some(p) => Ok(p.copy()),
            None => Err(Error::NotFound),
        }
    }

    /// Writes the page at `index`, extending the file as needed.
    pub fn write(&mut self, index: usize, page: Page)
        requires
            index < usize::MAX,
        ensures
            final(self)@.len() == if index + 1 > old(self)@.len() {
                index + 1
            } else {
                old(self)@.len() as int
            },
            final(self)@[index as int] == Some(page@),
            forall|j: int|
                0 <= j < old(self)@.len() && j != index ==> final(self)@[j] == old(self)@[j],
            forall|j: int|
                old(self)@.len() <= j < final(self)@.len() && j != index ==> final(self)@[j]
                    is None,
    {
        let ghost s0 = self@;
        while self.slots.len() <= index
            invariant
                index < usize::MAX,
                s0.len() <= self@.len(),
                self@.len() <= index + 1 || self@.len() == s0.len(),
                forall|j: int| 0 <= j < s0.len() ==> self@[j] == s0[j],
                forall|j: int| s0.len() <= j < self@.len() ==> self@[j] is None,
            decreases index + 1 - self@.len(),
        {
            let ghost b = self@;
            self.slots.push(None);
            proof {
                assert(self@ =~= b.push(None));
            }
        }
        let ghost b = self@;
        let ghost pv = page@;
        self.slots.set(index, Some(page));
        proof {
            assert(self@ =~= b.update(index as int, Some(pv)));
        }
    }

    /// File length in pages.
    pub fn len(&self) -> (r: usize)
        ensures
            r == self@.len(),
    {
        self.slots.len()
    }
}

/// The log file: an array of packed record entries indexed from zero. A
/// readable slot decodes to its entry; a slot holding garbage decodes to
/// nothing; a slot past the end of the file cannot be read at all.
pub struct WalFile {
    slots: Vec<Option<LogEntry>>,
}

impl View for WalFile {
    type V = Seq<Option<Seq<RecordV>>>;

    closed spec fn view(&self) -> Seq<Option<Seq<RecordV>>> {
        self.slots@.map_values(
            |o: Option<LogEntry>|
                match o {
                    Some(e) => Some(e@),
                    None => None,
                },
        )
    }
}

impl WalFile {
    pub fn new() -> (r: WalFile)
        ensures
            r@ =~= Seq::<Option<Seq<RecordV>>>::empty(),
    {
        let r = WalFile { slots: Vec::new() };
        proof {
            assert(r@ =~= Seq::<Option<Seq<RecordV>>>::empty());
        }
        r
    }

    /// Reads the entry at `index`: not found past the end of the file, a
    /// decode failure on a slot holding garbage.
    pub fn read(&self, index: usize) -> (r: Result<LogEntry, Error>)
        ensures
            match r {
                Ok(e) => index < self@.len() && self@[index as int] == Some(e@),
                Err(e) => (e == Error::NotFound && index >= self@.len()) || (e
                    == Error::Serialization && index < self@.len() && self@[index as int] is None),
            },
    {
        if index >= self.slots.len() {
            return Err(Error::NotFound);
        }
        match &self.slots[index] {
            Some(e) => Ok(e.copy()),
            None => Err(Error::Serialization),
        }
    }

    /// Writes the entry at `index`, extending the file as needed.
    pub fn write(&mut self, index: usize, entry: LogEntry)
        requires
            index < usize::MAX,
        ensures
            final(self)@.len() == if index + 1 > old(self)@.len() {
                index + 1
            } else {
                old(self)@.len() as int
            },
            final(self)@[index as int] == Some(entry@),
            forall|j: int|
                0 <= j < old(self)@.len() && j != index ==> final(self)@[j] == old(self)@[j],
            forall|j: int|
                old(self)@.len() <= j < final(self)@.len() && j != index ==> final(self)@[j]
                    is None,
    {
        let ghost s0 = self@;
        while self.slots.len() <= index
            invariant
                index < usize::MAX,
                s0.len() <= self@.len(),
                self@.len() <= index + 1 || self@.len() == s0.len(),
                forall|j: int| 0 <= j < s0.len() ==> self@[j] == s0[j],
                forall|j: int| s0.len() <= j < self@.len() ==> self@[j] is None,
            decreases index + 1 - self@.len(),
        {
            let ghost b = self@;
            self.slots.push(None);
            proof {
                assert(self@ =~= b.push(None));
            }
        }
        let ghost b = self@;
        let ghost ev = entry@;
        self.slots.set(index, Some(entry));
        proof {
            assert(self@ =~= b.update(index as int, Some(ev)));
        }
    }

    /// File length in pages.
    pub fn len(&self) -> (r: usize)
        ensures
            r == self@.len(),
    {
        self.slots.len()
    }
}

} // verus!
