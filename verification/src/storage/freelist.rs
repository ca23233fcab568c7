//! Free list management.
//!
//! Tracks deallocated pages that can be reused for new allocations. The
//! list lives in memory only: what was freed is reused first in, first out.
use crate::types::page_id::PageId;
use std::collections::VecDeque;
use vstd::prelude::*;

verus! {

/// Manages free pages for reuse.
pub struct FreeList {
    /// Queue of free page IDs.
    pages: VecDeque<PageId>,
}

impl View for FreeList {
    type V = Seq<PageId>;

    closed spec fn view(&self) -> Seq<PageId> {
        self.pages@
    }
}

impl FreeList {
    /// Create a new empty free list.
    pub fn new() -> (r: Self)
        ensures
            r@ == Seq::<PageId>::empty(),
    {
        FreeList { pages: VecDeque::new() }
    }

    /// Add a page to the free list.
    pub fn push(&mut self, page_id: PageId)
        ensures
            final(self)@ == old(self)@.push(page_id),
    {
        self.pages.push_back(page_id);
    }

    /// Get a free page, if available: the one that was freed first.
    pub fn pop(&mut self) -> (r: Option<PageId>)
        ensures
            old(self)@.len() == 0 ==> r is None && final(self)@ == old(self)@,
            old(self)@.len() > 0 ==> r == Some(old(self)@[0]) && final(self)@ == old(self)@.skip(1),
    {
        let r = self.pages.pop_front();
        proof {
            if old(self)@.len() > 0 {
                assert(self.pages@ =~= old(self)@.skip(1));
            }
        }
        r
    }

    /// Get the number of free pages.
    pub fn len(&self) -> (r: usize)
        ensures
            r == self@.len(),
    {
        self.pages.len()
    }

    /// Check if the free list is empty.
    pub fn is_empty(&self) -> (r: bool)
        ensures
            r == (self@.len() == 0),
    {
        self.pages.len() == 0
    }

    /// Get all free page IDs, oldest first.
    pub fn page_ids(&self) -> (r: Vec<PageId>)
        ensures
            r@ == self@,
    {
        let mut ids: Vec<PageId> = Vec::new();
        let mut i: usize = 0;
        while i < self.pages.len()
            invariant
                i <= self.pages@.len(),
                ids@ == self.pages@.take(i as int),
            decreases self.pages@.len() - i,
        {
            ids.push(self.pages[i]);
            assert(self.pages@.take(i + 1) =~= self.pages@.take(i as int).push(self.pages@[i as int]));
            i += 1;
        }
        assert(self.pages@.take(i as int) =~= self.pages@);
        ids
    }
}

impl Default for FreeList {
    fn default() -> (r: Self)
        ensures
            r@ == Seq::<PageId>::empty(),
    {
        FreeList::new()
    }
}

} // verus!
