//! Buffer pool implementation.
//!
//! The buffer pool keeps a bounded number of pages in memory frames,
//! loads pages from the disk manager on demand, and writes modified pages
//! back before it drops them. A frame that is pinned is never evicted.
//!
//! The pool is modelled by its store: for every page the bytes that a
//! reader is to see, which are those of the frame where the page is
//! resident and those on disk where it is not. Loading, evicting and
//! flushing leave the store as it is.
use crate::buffer::lru::{
    distinct, lemma_access_keeps, lemma_access_loses, lemma_victim_before, lemma_without_keeps,
    lemma_without_last, lemma_without_loses, LruCache, order_without_victim, victim_index, without,
};
use crate::error::StorageError;
use crate::page::PageBuf;
use crate::page::cell::CellView;
use crate::page::slotted::{image_wf, PageView, SlottedPage, view_of_image};
use crate::storage::disk_manager::{
    action_views, DiskAction, DiskActionView, DiskManager, DiskManagerImpl, header_after_free,
    zero_page,
};
use crate::storage::file_header::FileHeader;
use crate::types::PageType;
use crate::types::page_id::PageId;
use std::collections::HashMap;
use vstd::prelude::*;

verus! {

/// A frame in the buffer pool.
pub struct BufferFrame {
    /// The page data.
    page: SlottedPage,
    /// Whether the page has been modified since it was last written.
    dirty: bool,
    /// Pin count (number of guards that are out).
    pin_count: u32,
}

impl BufferFrame {
    /// A clean, unpinned frame for `page`.
    fn new(page: SlottedPage) -> (r: Self)
        ensures
            r.page == page,
            !r.dirty,
            r.pin_count == 0,
    {
        BufferFrame { page, dirty: false, pin_count: 0 }
    }
}

/// A claim on a page for reading. While the guard is out, the page stays
/// in its frame; `BufferPoolImpl::release` ends the claim.
pub struct PageGuard {
    page_id: PageId,
}

/// A claim on a page for writing. While the guard is out, the page stays
/// in its frame; `BufferPoolImpl::release_mut` ends the claim.
pub struct PageGuardMut {
    page_id: PageId,
}

/// Buffer pool over a disk manager.
pub struct BufferPoolImpl<D: DiskManager> {
    /// The disk manager for I/O.
    disk_manager: D,
    /// Cached frames indexed by page ID.
    frames: HashMap<u32, BufferFrame>,
    /// Least-recently-used order for eviction.
    lru: LruCache,
    /// Maximum number of frames.
    capacity: usize,
}

impl PageGuard {
    /// The page that the guard names, for use in contracts.
    pub closed spec fn id(&self) -> PageId {
        self.page_id
    }

    /// Get the page ID.
    pub fn page_id(&self) -> (r: PageId)
        ensures
            r == self.id(),
    {
        self.page_id
    }

    /// The page, as long as it is resident in `pool`.
    pub fn read<'a, D: DiskManager>(&self, pool: &'a BufferPoolImpl<D>) -> (r: Result<
        &'a SlottedPage,
        StorageError,
    >)
        requires
            pool.inv(),
        ensures
            match r {
                Ok(page) => pool.resident(self.id().0) && page.wf() && page.image()
                    == pool.store()[self.id().0],
                Err(StorageError::InvalidOperation(_)) => !pool.resident(self.id().0),
                Err(_) => false,
            },
    {
        pool.page_ref(self.page_id)
    }
}

impl PageGuardMut {
    /// The page that the guard names, for use in contracts.
    pub closed spec fn id(&self) -> PageId {
        self.page_id
    }

    /// Get the page ID.
    pub fn page_id(&self) -> (r: PageId)
        ensures
            r == self.id(),
    {
        self.page_id
    }

    /// The page, as long as it is resident in `pool`.
    pub fn read<'a, D: DiskManager>(&self, pool: &'a BufferPoolImpl<D>) -> (r: Result<
        &'a SlottedPage,
        StorageError,
    >)
        requires
            pool.inv(),
        ensures
            match r {
                Ok(page) => pool.resident(self.id().0) && page.wf() && page.image()
                    == pool.store()[self.id().0],
                Err(StorageError::InvalidOperation(_)) => !pool.resident(self.id().0),
                Err(_) => false,
            },
    {
        pool.page_ref(self.page_id)
    }

    /// Put `page` in the place of the page that the guard names, and mark
    /// the frame as modified. Nothing is written where the page is not
    /// resident.
    pub fn write<D: DiskManager>(&self, pool: &mut BufferPoolImpl<D>, page: SlottedPage) -> (r:
        Result<(), StorageError>)
        requires
            old(pool).inv(),
            page.wf(),
        ensures
            final(pool).inv(),
            final(pool).disk() == old(pool).disk(),
            final(pool).capacity_view() == old(pool).capacity_view(),
            match r {
                Ok(()) => {
                    &&& old(pool).resident(self.id().0)
                    &&& final(pool).store() == old(pool).store().insert(self.id().0, page.image())
                    &&& final(pool).frame_ids() == old(pool).frame_ids()
                    &&& forall|k: u32| final(pool).pins(k) == old(pool).pins(k)
                },
                Err(StorageError::InvalidOperation(_)) => {
                    &&& !old(pool).resident(self.id().0)
                    &&& final(pool).store() == old(pool).store()
                    &&& final(pool).frame_ids() == old(pool).frame_ids()
                    &&& forall|k: u32| final(pool).pins(k) == old(pool).pins(k)
                },
                Err(_) => false,
            },
    {
        pool.replace_page(self.page_id, page)
    }
}

impl<D: DiskManager> BufferPoolImpl<D> {
    /// The disk manager under the pool.
    pub closed spec fn disk(&self) -> D {
        self.disk_manager
    }

    /// The largest number of frames.
    pub closed spec fn capacity_view(&self) -> usize {
        self.capacity
    }

    /// The pages that are resident.
    pub closed spec fn frame_ids(&self) -> Set<u32> {
        self.frames@.dom()
    }

    /// Whether page `id` is resident.
    pub open spec fn resident(&self, id: u32) -> bool {
        self.frame_ids().contains(id)
    }

    /// The number of guards that are out for page `id`.
    pub closed spec fn pins(&self, id: u32) -> nat {
        if self.frames@.contains_key(id) {
            self.frames@[id].pin_count as nat
        } else {
            0
        }
    }

    /// Whether page `id` is resident and modified since it was last
    /// written.
    pub closed spec fn is_dirty(&self, id: u32) -> bool {
        self.frames@.contains_key(id) && self.frames@[id].dirty
    }

    /// The pages in the order of their last use, most recent first.
    pub closed spec fn lru_view(&self) -> Seq<u32> {
        self.lru@
    }

    /// The page that the disk manager hands out next: the page that was
    /// freed first; where none is free, the page after the last.
    pub open spec fn next_page(&self) -> u32 {
        if self.disk().free_pages().len() > 0 {
            self.disk().free_pages()[0].0
        } else {
            self.disk().header_view().page_count
        }
    }

    /// The pool after an attempt at a new page from the state `before`:
    /// the page that was next may have been handed out, and may have
    /// changed; no other page has.
    pub open spec fn after_attempt_from(&self, before: &Self) -> bool {
        &&& self.store().remove(before.next_page()) == before.store().remove(before.next_page())
        &&& if before.disk().free_pages().len() > 0 {
            &&& self.disk().header_view() == before.disk().header_view()
            &&& self.disk().free_pages() == before.disk().free_pages()
                || self.disk().free_pages() == before.disk().free_pages().skip(1)
        } else {
            &&& self.disk().free_pages() == before.disk().free_pages()
            &&& self.disk().header_view() == before.disk().header_view()
                || (before.disk().header_view().page_count < u32::MAX && self.disk().header_view()
                == (FileHeader {
                page_count: (before.disk().header_view().page_count + 1) as u32,
                ..before.disk().header_view()
            }))
        }
    }

    /// The pages for which a guard is out.
    pub open spec fn pinned_ids(&self) -> Set<u32> {
        Set::new(|id: u32| self.pins(id) > 0)
    }

    /// Where in the order of use the page stands that gives way when a
    /// frame is needed: the least recently used page that is not pinned;
    /// -1 where every page is pinned.
    pub open spec fn victim(&self) -> int {
        victim_index(self.lru_view(), self.pinned_ids())
    }

    /// The order of use once page `id` was used: it is the most recently
    /// used page. Where it had no frame and none was free, the page that
    /// gave way has left the order.
    pub open spec fn order_after_use(&self, id: u32) -> Seq<u32> {
        if self.resident(id) {
            seq![id] + without(self.lru_view(), id)
        } else if self.frame_ids().len() < self.capacity_view() {
            seq![id] + self.lru_view()
        } else {
            seq![id] + order_without_victim(self.lru_view(), self.victim())
        }
    }

    /// The pages that have a frame once page `id` was used.
    pub open spec fn frames_after_use(&self, id: u32) -> Set<u32> {
        if self.resident(id) {
            self.frame_ids()
        } else if self.frame_ids().len() < self.capacity_view() {
            self.frame_ids().insert(id)
        } else {
            self.frame_ids().remove(self.lru_view()[self.victim()]).insert(id)
        }
    }

    /// The bytes of every page as a reader is to see them: those of its
    /// frame where the page is resident, those on disk where it is not.
    pub closed spec fn store(&self) -> Map<u32, Seq<u8>> {
        Map::new(
            |id: u32| self.frames@.contains_key(id) || self.disk_manager.pages().contains_key(id),
            |id: u32|
                if self.frames@.contains_key(id) {
                    self.frames@[id].page.image()
                } else {
                    self.disk_manager.pages()[id]
                },
        )
    }

    /// What the pool keeps true of itself: the disk manager and the order
    /// of use are well formed; there are no more frames than the
    /// capacity; every frame holds a well-formed page whose number is
    /// below the page count; the order of use holds the pages that have
    /// a frame, and no other; a frame that is not dirty holds what is on
    /// disk.
    pub closed spec fn inv(&self) -> bool {
        &&& self.disk_manager.inv()
        &&& self.lru.wf()
        &&& self.frames@.dom().finite()
        &&& self.frames@.dom().len() <= self.capacity
        &&& forall|id: u32| #[trigger] self.lru@.contains(id) ==> self.frames@.contains_key(id)
        &&& forall|id: u32| #[trigger]
            self.frames@.contains_key(id) ==> {
                &&& self.frames@[id].page.wf()
                &&& self.lru@.contains(id)
                &&& 0 < id < self.disk_manager.header_view().page_count
                &&& !self.frames@[id].dirty ==> self.disk_manager.pages().contains_key(id)
                    && self.disk_manager.pages()[id] == self.frames@[id].page.image()
            }
    }

    /// A resident page is in the store, well formed, with a number below
    /// the page count; a page that is not resident is in the store as it
    /// is on disk.
    pub proof fn lemma_store(&self, id: u32)
        requires
            self.inv(),
        ensures
            self.disk().inv(),
            self.resident(id) ==> self.store().contains_key(id) && image_wf(self.store()[id]) && 0
                < id < self.disk().header_view().page_count,
            !self.resident(id) ==> self.pins(id) == 0 && (self.store().contains_key(id)
                <==> self.disk().pages().contains_key(id)) && (self.store().contains_key(id)
                ==> self.store()[id] == self.disk().pages()[id]),
            self.frame_ids().finite(),
            self.frame_ids().len() <= self.capacity_view(),
    {
        if self.frames@.contains_key(id) {
            self.frames@[id].page.lemma_wf();
        }
    }

    /// Where no frame is modified, readers see what is on disk.
    pub proof fn lemma_clean_store(&self)
        requires
            self.inv(),
            forall|k: u32| !self.is_dirty(k),
        ensures
            self.store() == self.disk().pages(),
    {
        assert forall|k: u32| #[trigger] self.frames@.contains_key(k) implies self.disk().pages().contains_key(
            k,
        ) && self.disk().pages()[k] == self.frames@[k].page.image() by {
            assert(!self.is_dirty(k));
        }
        assert(self.store() =~= self.disk().pages());
    }

    /// A pool in which no page can give way although none is pinned
    /// has no frame at all.
    pub proof fn lemma_exhausted(&self)
        requires
            self.inv(),
            self.frame_ids().len() >= self.capacity_view(),
            forall|k: u32| self.pins(k) == 0,
            forall|k: u32| self.resident(k) ==> self.pins(k) > 0,
        ensures
            self.capacity_view() == 0,
    {
        assert forall|k: u32| !self.frame_ids().contains(k) by {
            if self.resident(k) {
                assert(self.pins(k) > 0);
                assert(self.pins(k) == 0);
            }
        }
        assert(self.frame_ids() =~= Set::<u32>::empty());
    }

    /// Create a new buffer pool of `capacity` frames over `disk_manager`.
    pub fn new(disk_manager: D, capacity: usize) -> (r: Self)
        requires
            disk_manager.inv(),
        ensures
            r.inv(),
            r.disk() == disk_manager,
            r.capacity_view() == capacity,
            r.frame_ids() == Set::<u32>::empty(),
            r.store() == disk_manager.pages(),
            r.lru_view() == Seq::<u32>::empty(),
    {
        let r = BufferPoolImpl {
            disk_manager,
            frames: HashMap::with_capacity(capacity),
            lru: LruCache::new(capacity),
            capacity,
        };
        proof {
            assert(r.frames@.dom() =~= Set::<u32>::empty());
            assert(r.store() =~= disk_manager.pages());
        }
        r
    }

    /// The page of a resident frame.
    fn page_ref(&self, page_id: PageId) -> (r: Result<&SlottedPage, StorageError>)
        requires
            self.inv(),
        ensures
            match r {
                Ok(page) => self.resident(page_id.0) && page.wf() && page.image()
                    == self.store()[page_id.0],
                Err(StorageError::InvalidOperation(_)) => !self.resident(page_id.0),
                Err(_) => false,
            },
    {
        match self.frames.get(&page_id.value()) {
            Some(frame) => Ok(&frame.page),
            None => Err(StorageError::invalid_operation("the page is not resident")),
        }
    }

    /// Replace the page of a resident frame and mark the frame dirty.
    fn replace_page(&mut self, page_id: PageId, page: SlottedPage) -> (r: Result<
        (),
        StorageError,
    >)
        requires
            old(self).inv(),
            page.wf(),
        ensures
            final(self).inv(),
            final(self).disk() == old(self).disk(),
            final(self).capacity_view() == old(self).capacity_view(),
            final(self).frame_ids() == old(self).frame_ids(),
            final(self).lru_view() == old(self).lru_view(),
            forall|k: u32| final(self).pins(k) == old(self).pins(k),
            match r {
                Ok(()) => {
                    &&& old(self).resident(page_id.0)
                    &&& final(self).store() == old(self).store().insert(page_id.0, page.image())
                },
                Err(StorageError::InvalidOperation(_)) => {
                    &&& !old(self).resident(page_id.0)
                    &&& final(self).store() == old(self).store()
                },
                Err(_) => false,
            },
    {
        let id = page_id.value();
        match self.frames.remove(&id) {
            Some(frame) => {
                let ghost image = page.image();
                self.frames.insert(
                    id,
                    BufferFrame { page, dirty: true, pin_count: frame.pin_count },
                );
                proof {
                    assert(self.frames@.dom() =~= old(self).frames@.dom());
                    assert(self.store() =~= old(self).store().insert(id, image));
                    assert forall|k: u32| self.pins(k) == old(self).pins(k) by {}
                }
                Ok(())
            },
            None => {
                proof {
                    assert(self.frames@ =~= old(self).frames@);
                }
                Err(StorageError::invalid_operation("the page is not resident"))
            },
        }
    }

    /// Write the page of frame `page_id` to disk if it is dirty.
    fn write_back(&mut self, page_id: PageId) -> (r: Result<(), StorageError>)
        requires
            old(self).inv(),
        ensures
            final(self).inv(),
            final(self).store() == old(self).store(),
            final(self).frame_ids() == old(self).frame_ids(),
            final(self).lru_view() == old(self).lru_view(),
            final(self).capacity_view() == old(self).capacity_view(),
            final(self).disk().header_view() == old(self).disk().header_view(),
            final(self).disk().free_pages() == old(self).disk().free_pages(),
            forall|k: u32| final(self).pins(k) == old(self).pins(k),
            forall|k: u32|
                final(self).is_dirty(k) == (old(self).is_dirty(k) && !(r is Ok && k == page_id.0)),
            old(self).disk().dependable() ==> final(self).disk().dependable(),
            r is Ok ==> !final(self).is_dirty(page_id.0),
            r is Err ==> (r matches Err(StorageError::Io(_))) && !old(self).disk().dependable(),
    {
        let id = page_id.value();
        let needs_write = match self.frames.get(&id) {
            Some(frame) => frame.dirty,
            None => false,
        };
        if !needs_write {
            return Ok(());
        }
        let ghost disk0 = self.disk_manager;
        let frame = match self.frames.remove(&id) {
            Some(frame) => frame,
            None => {
                return Ok(());
            },
        };
        let written = self.disk_manager.write_page(page_id, frame.page.as_bytes());
        let ok = written.is_ok();
        self.frames.insert(
            id,
            BufferFrame { page: frame.page, dirty: !ok && frame.dirty, pin_count: frame.pin_count },
        );
        proof {
            assert(self.frames@.dom() =~= old(self).frames@.dom());
            let pages0 = disk0.pages();
            let pages1 = self.disk_manager.pages();
            assert forall|k: u32| k != id implies #[trigger] pages1.contains_key(k)
                == pages0.contains_key(k) && (pages0.contains_key(k)
                    ==> pages1[k] == pages0[k]) by {
                if written is Ok {
                    assert(pages1 == pages0.insert(id, frame.page.image()));
                } else {
                    assert(pages1.remove(id) == pages0.remove(id));
                    assert(pages1.remove(id).contains_key(k) == pages1.contains_key(k));
                    assert(pages0.remove(id).contains_key(k) == pages0.contains_key(k));
                    if pages0.contains_key(k) {
                        assert(pages1.remove(id)[k] == pages1[k]);
                        assert(pages0.remove(id)[k] == pages0[k]);
                    }
                }
            }
            assert forall|k: u32| #[trigger] self.frames@.contains_key(k) implies {
                &&& self.frames@[k].page.wf()
                &&& 0 < k < self.disk_manager.header_view().page_count
                &&& !self.frames@[k].dirty ==> self.disk_manager.pages().contains_key(k)
                    && self.disk_manager.pages()[k] == self.frames@[k].page.image()
            } by {
                assert(old(self).frames@.contains_key(k));
                if k != id {
                    assert(self.frames@[k] == old(self).frames@[k]);
                }
            }
            assert forall|k: u32| self.store().contains_key(k) == old(self).store().contains_key(
                k,
            ) && (self.store().contains_key(k) ==> self.store()[k] == old(self).store()[k]) by {
                if k != id {
                    assert(self.frames@.contains_key(k) == old(self).frames@.contains_key(k));
                    if self.frames@.contains_key(k) {
                        assert(self.frames@[k] == old(self).frames@[k]);
                    } else {
                        assert(pages1.contains_key(k) == pages0.contains_key(k));
                        if pages0.contains_key(k) {
                            assert(pages1[k] == pages0[k]);
                        }
                    }
                } else {
                    assert(self.frames@.contains_key(id) && old(self).frames@.contains_key(id));
                    assert(self.frames@[id].page == frame.page);
                    assert(old(self).frames@[id] == frame);
                }
            }
            assert(self.store() =~= old(self).store());
            assert forall|k: u32| self.pins(k) == old(self).pins(k) by {}
        }
        match written {
            Ok(()) => Ok(()),
            Err(e) => Err(e),
        }
    }

    /// Evict one page from the buffer pool: the least recently used one
    /// that is not pinned. A pinned page that comes up before it counts
    /// as used again. Fails with `BufferPoolExhausted` where every
    /// resident page is pinned; the order of use is then as it was.
    fn evict_one(&mut self) -> (r: Result<(), StorageError>)
        requires
            old(self).inv(),
        ensures
            final(self).inv(),
            final(self).store() == old(self).store(),
            final(self).capacity_view() == old(self).capacity_view(),
            final(self).disk().header_view() == old(self).disk().header_view(),
            final(self).disk().free_pages() == old(self).disk().free_pages(),
            final(self).frame_ids().subset_of(old(self).frame_ids()),
            forall|k: u32| final(self).resident(k) ==> final(self).pins(k) == old(self).pins(k),
            forall|k: u32| old(self).pins(k) > 0 ==> final(self).resident(k),
            forall|k: u32| final(self).resident(k)
                ==> final(self).is_dirty(k) == old(self).is_dirty(k),
            old(self).disk().dependable() ==> final(self).disk().dependable(),
            match r {
                Ok(()) => {
                    &&& 0 <= old(self).victim() < old(self).lru_view().len()
                    &&& final(self).frame_ids() == old(self).frame_ids().remove(
                        old(self).lru_view()[old(self).victim()],
                    )
                    &&& final(self).frame_ids().len() == old(self).frame_ids().len() - 1
                    &&& final(self).lru_view() == order_without_victim(
                        old(self).lru_view(),
                        old(self).victim(),
                    )
                },
                Err(StorageError::BufferPoolExhausted) => {
                    &&& final(self).frame_ids() == old(self).frame_ids()
                    &&& final(self).lru_view() == old(self).lru_view()
                    &&& old(self).victim() == -1
                    &&& forall|k: u32| old(self).resident(k) ==> old(self).pins(k) > 0
                },
                Err(StorageError::Io(_)) => {
                    &&& final(self).frame_ids() == old(self).frame_ids()
                    &&& !old(self).disk().dependable()
                },
                Err(_) => false,
            },
    {
        let ghost order = self.lru@;
        let ghost pinned = self.pinned_ids();
        let mut tries: usize = self.lru.len();
        proof {
            self.lru.lemma_wf();
            assert(order.skip(tries as int) + order.take(tries as int) =~= order);
        }
        while tries > 0
            invariant
                self.inv(),
                self.store() == old(self).store(),
                self.capacity_view() == old(self).capacity_view(),
                self.disk().header_view() == old(self).disk().header_view(),
                self.disk().free_pages() == old(self).disk().free_pages(),
                self.frame_ids() == old(self).frame_ids(),
                forall|k: u32| self.pins(k) == old(self).pins(k),
                forall|k: u32| self.is_dirty(k) == old(self).is_dirty(k),
                old(self).disk().dependable() ==> self.disk().dependable(),
                order == old(self).lru_view(),
                pinned == old(self).pinned_ids(),
                distinct(order),
                tries <= order.len(),
                self.lru@ == order.skip(tries as int) + order.take(tries as int),
                forall|i: int| tries <= i < order.len() ==> pinned.contains(#[trigger] order[i]),
            decreases tries,
        {
            let ghost current = self.lru@;
            proof {
                self.lru.lemma_wf();
                lemma_without_last(current);
                assert(current.last() == order[tries - 1]);
                assert(current.drop_last() =~= order.skip(tries as int) + order.take(tries - 1));
            }
            let page_id = match self.lru.lru() {
                Some(id) => PageId::new(id),
                None => {
                    return Err(StorageError::BufferPoolExhausted);
                },
            };
            proof {
                assert(current.contains(page_id.0)) by {
                    assert(current[current.len() - 1] == page_id.0);
                }
                assert(self.frames@.contains_key(page_id.0));
            }
            let pinned_now = match self.frames.get(&page_id.value()) {
                Some(frame) => frame.pin_count > 0,
                None => false,
            };
            if pinned_now {
                // The page is pinned: it counts as used, and the next is tried.
                self.lru.access(page_id.value());
                proof {
                    let next = self.lru@;
                    assert(next =~= seq![page_id.0] + current.drop_last());
                    assert(next =~= order.skip(tries - 1) + order.take(tries - 1));
                    assert forall|k: u32| #[trigger] self.frames@.contains_key(k) implies next.contains(
                        k,
                    ) by {
                        lemma_access_keeps(current, page_id.0, k);
                    }
                    assert forall|k: u32| #[trigger] next.contains(k) implies self.frames@.contains_key(
                        k,
                    ) by {
                        lemma_access_loses(current, page_id.0, k);
                    }
                    assert(self.pins(page_id.0) > 0);
                    assert(pinned.contains(order[tries - 1]));
                }
            } else {
                proof {
                    assert(self.pins(page_id.0) == 0);
                    assert(!pinned.contains(order[tries - 1]));
                    lemma_victim_before(order, pinned, tries as int);
                    assert(order.take(tries as int).last() == order[tries - 1]);
                    assert(victim_index(order, pinned) == tries - 1);
                }
                // Write back if dirty.
                match self.write_back(page_id) {
                    Ok(()) => {},
                    Err(e) => {
                        return Err(e);
                    },
                }
                // Remove from buffer.
                let ghost before = self.frames@;
                let ghost store0 = self.store();
                let ghost mid = *self;
                self.frames.remove(&page_id.value());
                self.lru.remove(page_id.value());
                proof {
                    assert(forall|k: u32| mid.pins(k) == old(self).pins(k));
                    assert(mid.pins(page_id.0) == 0);
                    assert(before.dom().contains(page_id.0));
                    assert(self.frames@.dom() =~= before.dom().remove(page_id.0));
                    assert(self.store() =~= store0);
                    assert(self.lru@ =~= order_without_victim(order, tries - 1));
                    assert forall|k: u32| #[trigger] self.frames@.contains_key(k) implies self.lru@.contains(
                        k,
                    ) by {
                        assert(before.contains_key(k));
                        lemma_without_keeps(current, page_id.0, k);
                    }
                    assert forall|k: u32| #[trigger] self.lru@.contains(k) implies self.frames@.contains_key(
                        k,
                    ) by {
                        lemma_without_loses(current, page_id.0, k);
                    }
                    assert forall|k: u32| self.resident(k) implies self.pins(k) == old(self).pins(k) by {
                        assert(before.contains_key(k) && k != page_id.0);
                        assert(self.frames@[k] == before[k]);
                        assert(mid.pins(k) == before[k].pin_count);
                    }
                    assert forall|k: u32| old(self).pins(k) > 0 implies self.resident(k) by {
                        assert(mid.pins(k) > 0);
                        assert(before.contains_key(k));
                        assert(before[k].pin_count > 0);
                        assert(before[page_id.0].pin_count == 0);
                    }
                }
                return Ok(());
            }
            tries = tries - 1;
        }
        proof {
            assert(self.lru@ =~= order);
            lemma_victim_before(order, pinned, 0);
            assert(order.take(0) =~= Seq::<u32>::empty());
            assert forall|k: u32| old(self).resident(k) implies old(self).pins(k) > 0 by {
                assert(order.contains(k));
                let i = order.index_of(k);
                assert(pinned.contains(order[i]));
            }
        }
        Err(StorageError::BufferPoolExhausted)
    }

    /// Load a page from disk into the buffer pool.
    fn load_page(&mut self, page_id: PageId) -> (r: Result<(), StorageError>)
        requires
            old(self).inv(),
            !old(self).resident(page_id.0),
        ensures
            final(self).inv(),
            final(self).store() == old(self).store(),
            final(self).capacity_view() == old(self).capacity_view(),
            final(self).disk().header_view() == old(self).disk().header_view(),
            final(self).disk().free_pages() == old(self).disk().free_pages(),
            forall|k: u32| final(self).resident(k) ==> final(self).pins(k) == old(self).pins(k),
            forall|k: u32| old(self).pins(k) > 0 ==> final(self).resident(k),
            forall|k: u32| final(self).resident(k)
                ==> final(self).is_dirty(k) == old(self).is_dirty(k),
            r is Ok ==> final(self).resident(page_id.0),
            r is Ok ==> final(self).lru_view() == old(self).order_after_use(page_id.0)
                && final(self).frame_ids() == old(self).frames_after_use(page_id.0),
            r is Err ==> final(self).frame_ids() == old(self).frame_ids(),
            old(self).disk().dependable() ==> final(self).disk().dependable(),
            match r {
                Ok(()) => true,
                Err(StorageError::InvalidOperation(_)) => page_id.0 == 0,
                Err(StorageError::PageNotFound(p)) => p == page_id
                    && page_id.0 >= old(self).disk().header_view().page_count,
                Err(StorageError::Io(_)) => !old(self).disk().dependable(),
                Err(StorageError::InvalidPage(_)) | Err(StorageError::Corruption(_)) => old(self).store().contains_key(page_id.0)
                    && !image_wf(old(self).store()[page_id.0]),
                Err(StorageError::BufferPoolExhausted) => {
                    &&& old(self).frame_ids().len() >= old(self).capacity_view()
                    &&& forall|k: u32| old(self).resident(k) ==> old(self).pins(k) > 0
                },
                Err(_) => false,
            },
    {
        let id = page_id.value();
        // Read from disk.
        let page_buf = match self.disk_manager.read_page(page_id) {
            Ok(buf) => buf,
            Err(e) => {
                proof {
                    assert(self.store() =~= old(self).store());
                    assert forall|k: u32| self.pins(k) == old(self).pins(k) by {}
                }
                return Err(e);
            },
        };
        proof {
            assert(self.store() =~= old(self).store());
            assert(PageBuf::spec_from_bytes(page_buf@) =~= page_buf@);
            assert forall|k: u32| self.pins(k) == old(self).pins(k) by {}
        }
        let page = match SlottedPage::from_bytes(page_buf.as_bytes()) {
            Ok(page) => page,
            Err(e) => {
                return Err(e);
            },
        };
        // Evict if necessary.
        let ghost full = *self;
        proof {
            assert(full.frames@ == old(self).frames@);
            assert(full.lru@ == old(self).lru@);
            assert(full.pinned_ids() =~= old(self).pinned_ids());
        }
        if self.frames.len() >= self.capacity {
            match self.evict_one() {
                Ok(()) => {},
                Err(e) => {
                    proof {
                        if e is BufferPoolExhausted {
                            assert forall|k: u32| old(self).resident(k) implies old(self).pins(k)
                                > 0 by {
                                assert(full.resident(k));
                                assert(full.pins(k) > 0);
                            }
                        }
                    }
                    return Err(e);
                },
            }
        }
        // Insert into buffer.
        let ghost before = self.frames@;
        let ghost store0 = self.store();
        proof {
            assert(!before.contains_key(id));
            assert(store0.contains_key(id) && store0[id] == page.image());
        }
        let ghost order = self.lru@;
        self.frames.insert(id, BufferFrame::new(page));
        self.lru.access(id);
        proof {
            full.lru.lemma_wf();
            assert(!order.contains(id));
            assert(self.lru@ == seq![id] + order);
            assert(self.frames@.dom() =~= before.dom().insert(id));
            assert(self.store() =~= store0);
            assert forall|k: u32| #[trigger] self.frames@.contains_key(k) implies self.lru@.contains(
                k,
            ) by {
                if k != id {
                    assert(before.contains_key(k));
                }
                lemma_access_keeps(order, id, k);
            }
            assert forall|k: u32| #[trigger] self.lru@.contains(k) implies self.frames@.contains_key(
                k,
            ) by {
                let j = self.lru@.index_of(k);
                if j > 0 {
                    assert(order[j - 1] == k);
                    assert(order.contains(k));
                    assert(before.contains_key(k));
                }
            }
            assert forall|k: u32| self.resident(k) implies self.pins(k) == old(self).pins(k) by {}
            assert forall|k: u32| self.resident(k) implies self.is_dirty(k) == old(self).is_dirty(
                k,
            ) by {
                if k != id {
                    assert(before.contains_key(k));
                    assert(self.frames@[k] == before[k]);
                    assert(full.is_dirty(k) == old(self).is_dirty(k));
                }
            }
        }
        Ok(())
    }

    /// Get or load a frame for a page.
    fn get_frame(&mut self, page_id: PageId) -> (r: Result<(), StorageError>)
        requires
            old(self).inv(),
        ensures
            final(self).inv(),
            final(self).store() == old(self).store(),
            final(self).capacity_view() == old(self).capacity_view(),
            final(self).disk().header_view() == old(self).disk().header_view(),
            final(self).disk().free_pages() == old(self).disk().free_pages(),
            forall|k: u32| final(self).resident(k) ==> final(self).pins(k) == old(self).pins(k),
            forall|k: u32| old(self).pins(k) > 0 ==> final(self).resident(k),
            forall|k: u32| final(self).resident(k)
                ==> final(self).is_dirty(k) == old(self).is_dirty(k),
            r is Ok ==> final(self).resident(page_id.0),
            r is Ok ==> final(self).lru_view() == old(self).order_after_use(page_id.0)
                && final(self).frame_ids() == old(self).frames_after_use(page_id.0),
            r is Err ==> final(self).frame_ids() == old(self).frame_ids(),
            old(self).disk().dependable() ==> final(self).disk().dependable(),
            match r {
                Ok(()) => true,
                Err(StorageError::InvalidOperation(_)) => page_id.0 == 0,
                Err(StorageError::PageNotFound(p)) => p == page_id
                    && page_id.0 >= old(self).disk().header_view().page_count,
                Err(StorageError::Io(_)) => !old(self).disk().dependable(),
                Err(StorageError::InvalidPage(_)) | Err(StorageError::Corruption(_)) => old(self).store().contains_key(page_id.0)
                    && !image_wf(old(self).store()[page_id.0]),
                Err(StorageError::BufferPoolExhausted) => {
                    &&& old(self).frame_ids().len() >= old(self).capacity_view()
                    &&& forall|k: u32| old(self).resident(k) ==> old(self).pins(k) > 0
                },
                Err(_) => false,
            },
    {
        // Check if already in buffer.
        if self.frames.contains_key(&page_id.value()) {
            self.lru.access(page_id.value());
            proof {
                old(self).lru.lemma_wf();
                assert forall|k: u32| #[trigger] self.frames@.contains_key(k) implies self.lru@.contains(
                    k,
                ) by {
                    lemma_access_keeps(old(self).lru@, page_id.0, k);
                }
                assert forall|k: u32| #[trigger] self.lru@.contains(k) implies self.frames@.contains_key(
                    k,
                ) by {
                    lemma_access_loses(old(self).lru@, page_id.0, k);
                }
                assert(self.store() =~= old(self).store());
                assert forall|k: u32| self.pins(k) == old(self).pins(k) by {}
            }
            return Ok(());
        }
        // Need to load from disk.
        self.load_page(page_id)
    }

    /// Count one more guard on a resident frame, and mark it dirty where
    /// the guard is for writing.
    fn pin(&mut self, page_id: PageId, for_write: bool) -> (r: Result<(), StorageError>)
        requires
            old(self).inv(),
            old(self).resident(page_id.0),
        ensures
            final(self).inv(),
            final(self).store() == old(self).store(),
            final(self).frame_ids() == old(self).frame_ids(),
            final(self).lru_view() == old(self).lru_view(),
            final(self).capacity_view() == old(self).capacity_view(),
            final(self).disk() == old(self).disk(),
            forall|k: u32| k != page_id.0 ==> final(self).pins(k) == old(self).pins(k),
            forall|k: u32| k != page_id.0 ==> final(self).is_dirty(k) == old(self).is_dirty(k),
            match r {
                Ok(()) => final(self).pins(page_id.0) == old(self).pins(page_id.0) + 1
                    && final(self).is_dirty(page_id.0) == (old(self).is_dirty(page_id.0)
                    || for_write),
                Err(StorageError::InvalidOperation(_)) => old(self).pins(page_id.0) == u32::MAX
                    && final(self).pins(page_id.0) == old(self).pins(page_id.0),
                Err(_) => false,
            },
    {
        let id = page_id.value();
        let frame = match self.frames.remove(&id) {
            Some(frame) => frame,
            None => {
                return Err(StorageError::invalid_operation("the page is not resident"));
            },
        };
        if frame.pin_count == u32::MAX {
            self.frames.insert(id, frame);
            proof {
                assert(self.frames@ =~= old(self).frames@);
            }
            return Err(StorageError::invalid_operation("the page has too many guards"));
        }
        self.frames.insert(
            id,
            BufferFrame {
                page: frame.page,
                dirty: frame.dirty || for_write,
                pin_count: frame.pin_count + 1,
            },
        );
        proof {
            assert(self.frames@.dom() =~= old(self).frames@.dom());
            assert(self.store() =~= old(self).store());
            assert forall|k: u32| k != page_id.0 implies self.pins(k) == old(self).pins(k) by {}
        }
        Ok(())
    }

    /// Count one guard less on a frame and record the use of the page, if
    /// it is resident.
    fn unpin(&mut self, page_id: PageId)
        requires
            old(self).inv(),
        ensures
            final(self).inv(),
            final(self).store() == old(self).store(),
            final(self).frame_ids() == old(self).frame_ids(),
            final(self).lru_view() == (if old(self).resident(page_id.0) {
                seq![page_id.0] + without(old(self).lru_view(), page_id.0)
            } else {
                old(self).lru_view()
            }),
            final(self).capacity_view() == old(self).capacity_view(),
            final(self).disk() == old(self).disk(),
            forall|k: u32| k != page_id.0 ==> final(self).pins(k) == old(self).pins(k),
            forall|k: u32| final(self).is_dirty(k) == old(self).is_dirty(k),
            final(self).pins(page_id.0) == (if old(self).pins(page_id.0) > 0 {
                old(self).pins(page_id.0) - 1
            } else {
                0
            }),
    {
        let id = page_id.value();
        match self.frames.remove(&id) {
            Some(frame) => {
                self.frames.insert(
                    id,
                    BufferFrame {
                        page: frame.page,
                        dirty: frame.dirty,
                        pin_count: if frame.pin_count > 0 {
                            frame.pin_count - 1
                        } else {
                            0
                        },
                    },
                );
                // Update the order of use.
                self.lru.access(id);
                proof {
                    old(self).lru.lemma_wf();
                    assert(self.frames@.dom() =~= old(self).frames@.dom());
                    assert forall|k: u32| #[trigger] self.frames@.contains_key(k) implies self.lru@.contains(
                        k,
                    ) by {
                        assert(old(self).frames@.contains_key(k));
                        lemma_access_keeps(old(self).lru@, id, k);
                    }
                    assert forall|k: u32| #[trigger] self.lru@.contains(k) implies self.frames@.contains_key(
                        k,
                    ) by {
                        lemma_access_loses(old(self).lru@, id, k);
                    }
                }
            },
            None => {
                proof {
                    assert(self.frames@ =~= old(self).frames@);
                }
            },
        }
        proof {
            assert(self.store() =~= old(self).store());
            assert forall|k: u32| k != page_id.0 implies self.pins(k) == old(self).pins(k) by {}
        }
    }

    /// Fetch a page for reading: the page is made resident, loaded from
    /// disk where it is not, and pinned until the guard is released.
    pub fn fetch_page(&mut self, page_id: PageId) -> (r: Result<PageGuard, StorageError>)
        requires
            old(self).inv(),
        ensures
            final(self).inv(),
            final(self).store() == old(self).store(),
            final(self).capacity_view() == old(self).capacity_view(),
            final(self).disk().header_view() == old(self).disk().header_view(),
            final(self).disk().free_pages() == old(self).disk().free_pages(),
            forall|k: u32| old(self).pins(k) > 0 ==> final(self).resident(k),
            forall|k: u32|
                k != page_id.0 && final(self).resident(k)
                    ==> final(self).pins(k) == old(self).pins(k),
            forall|k: u32|
                k != page_id.0 && final(self).resident(k)
                    ==> final(self).is_dirty(k) == old(self).is_dirty(k),
            r is Err ==> final(self).pins(page_id.0) == old(self).pins(page_id.0),
            old(self).disk().dependable() ==> final(self).disk().dependable(),
            match r {
                Ok(guard) => {
                    &&& guard.id() == page_id
                    &&& final(self).resident(page_id.0)
                    &&& final(self).lru_view() == old(self).order_after_use(page_id.0)
                    &&& final(self).frame_ids() == old(self).frames_after_use(page_id.0)
                    &&& final(self).pins(page_id.0) == old(self).pins(page_id.0) + 1
                    &&& final(self).is_dirty(page_id.0) == old(self).is_dirty(page_id.0)
                },
                Err(StorageError::InvalidOperation(_)) => page_id.0 == 0 || old(self).pins(
                    page_id.0,
                ) == u32::MAX,
                Err(StorageError::PageNotFound(p)) => p == page_id
                    && page_id.0 >= old(self).disk().header_view().page_count,
                Err(StorageError::Io(_)) => !old(self).disk().dependable(),
                Err(StorageError::InvalidPage(_)) | Err(StorageError::Corruption(_)) => old(self).store().contains_key(page_id.0)
                    && !image_wf(old(self).store()[page_id.0]),
                Err(StorageError::BufferPoolExhausted) => {
                    &&& old(self).frame_ids().len() >= old(self).capacity_view()
                    &&& forall|k: u32| old(self).resident(k) ==> old(self).pins(k) > 0
                },
                Err(_) => false,
            },
    {
        match self.get_frame(page_id) {
            Ok(()) => {},
            Err(e) => {
                return Err(e);
            },
        }
        proof {
            self.lemma_store(page_id.0);
            old(self).lemma_store(page_id.0);
        }
        match self.pin(page_id, false) {
            Ok(()) => Ok(PageGuard { page_id }),
            Err(e) => Err(e),
        }
    }

    /// Fetch a page for writing: as for reading, and the frame counts as
    /// modified from now on.
    pub fn fetch_page_mut(&mut self, page_id: PageId) -> (r: Result<PageGuardMut, StorageError>)
        requires
            old(self).inv(),
        ensures
            final(self).inv(),
            final(self).store() == old(self).store(),
            final(self).capacity_view() == old(self).capacity_view(),
            final(self).disk().header_view() == old(self).disk().header_view(),
            final(self).disk().free_pages() == old(self).disk().free_pages(),
            forall|k: u32| old(self).pins(k) > 0 ==> final(self).resident(k),
            forall|k: u32|
                k != page_id.0 && final(self).resident(k)
                    ==> final(self).pins(k) == old(self).pins(k),
            forall|k: u32|
                k != page_id.0 && final(self).resident(k)
                    ==> final(self).is_dirty(k) == old(self).is_dirty(k),
            r is Err ==> final(self).pins(page_id.0) == old(self).pins(page_id.0),
            old(self).disk().dependable() ==> final(self).disk().dependable(),
            match r {
                Ok(guard) => {
                    &&& guard.id() == page_id
                    &&& final(self).resident(page_id.0)
                    &&& final(self).lru_view() == old(self).order_after_use(page_id.0)
                    &&& final(self).frame_ids() == old(self).frames_after_use(page_id.0)
                    &&& final(self).pins(page_id.0) == old(self).pins(page_id.0) + 1
                    &&& final(self).is_dirty(page_id.0)
                },
                Err(StorageError::InvalidOperation(_)) => page_id.0 == 0 || old(self).pins(
                    page_id.0,
                ) == u32::MAX,
                Err(StorageError::PageNotFound(p)) => p == page_id
                    && page_id.0 >= old(self).disk().header_view().page_count,
                Err(StorageError::Io(_)) => !old(self).disk().dependable(),
                Err(StorageError::InvalidPage(_)) | Err(StorageError::Corruption(_)) => old(self).store().contains_key(page_id.0)
                    && !image_wf(old(self).store()[page_id.0]),
                Err(StorageError::BufferPoolExhausted) => {
                    &&& old(self).frame_ids().len() >= old(self).capacity_view()
                    &&& forall|k: u32| old(self).resident(k) ==> old(self).pins(k) > 0
                },
                Err(_) => false,
            },
    {
        match self.get_frame(page_id) {
            Ok(()) => {},
            Err(e) => {
                return Err(e);
            },
        }
        proof {
            self.lemma_store(page_id.0);
            old(self).lemma_store(page_id.0);
        }
        match self.pin(page_id, true) {
            Ok(()) => Ok(PageGuardMut { page_id }),
            Err(e) => Err(e),
        }
    }

    /// End the claim of a guard: the page can be evicted again once no
    /// guard is out for it, and counts as just used.
    pub fn release(&mut self, guard: PageGuard)
        requires
            old(self).inv(),
        ensures
            final(self).inv(),
            final(self).store() == old(self).store(),
            final(self).frame_ids() == old(self).frame_ids(),
            final(self).lru_view() == (if old(self).resident(guard.id().0) {
                seq![guard.id().0] + without(old(self).lru_view(), guard.id().0)
            } else {
                old(self).lru_view()
            }),
            final(self).capacity_view() == old(self).capacity_view(),
            final(self).disk() == old(self).disk(),
            forall|k: u32| k != guard.id().0 ==> final(self).pins(k) == old(self).pins(k),
            forall|k: u32| final(self).is_dirty(k) == old(self).is_dirty(k),
            final(self).pins(guard.id().0) == (if old(self).pins(guard.id().0) > 0 {
                old(self).pins(guard.id().0) - 1
            } else {
                0
            }),
    {
        self.unpin(guard.page_id);
    }

    /// End the claim of a guard for writing.
    pub fn release_mut(&mut self, guard: PageGuardMut)
        requires
            old(self).inv(),
        ensures
            final(self).inv(),
            final(self).store() == old(self).store(),
            final(self).frame_ids() == old(self).frame_ids(),
            final(self).lru_view() == (if old(self).resident(guard.id().0) {
                seq![guard.id().0] + without(old(self).lru_view(), guard.id().0)
            } else {
                old(self).lru_view()
            }),
            final(self).capacity_view() == old(self).capacity_view(),
            final(self).disk() == old(self).disk(),
            forall|k: u32| k != guard.id().0 ==> final(self).pins(k) == old(self).pins(k),
            forall|k: u32| final(self).is_dirty(k) == old(self).is_dirty(k),
            final(self).pins(guard.id().0) == (if old(self).pins(guard.id().0) > 0 {
                old(self).pins(guard.id().0) - 1
            } else {
                0
            }),
    {
        self.unpin(guard.page_id);
    }

    /// Allocate a new page and install it as an empty leaf: resident,
    /// dirty, and pinned by the guard that is returned. Nothing is read
    /// from disk. A frame is evicted first where the pool is full.
    ///
    /// The page comes from the disk manager: the page that was freed
    /// first, else a page that extends the file. A page number that lies
    /// outside the file is refused.
    pub fn new_page(&mut self) -> (r: Result<(PageId, PageGuardMut), StorageError>)
        requires
            old(self).inv(),
        ensures
            final(self).inv(),
            final(self).capacity_view() == old(self).capacity_view(),
            old(self).disk().dependable() ==> final(self).disk().dependable(),
            forall|k: u32| old(self).pins(k) > 0 ==> final(self).resident(k),
            final(self).after_attempt_from(old(self)),
            match r {
                Ok((page_id, guard)) => {
                    &&& guard.id() == page_id
                    &&& 0 < page_id.0 < final(self).disk().header_view().page_count
                    &&& final(self).resident(page_id.0)
                    &&& final(self).lru_view() == old(self).order_after_use(page_id.0)
                    &&& final(self).frame_ids() == old(self).frames_after_use(page_id.0)
                    &&& final(self).pins(page_id.0) == 1
                    &&& final(self).is_dirty(page_id.0)
                    &&& forall|k: u32|
                        k != page_id.0 && final(self).resident(k)
                            ==> final(self).pins(k) == old(self).pins(k)
                    &&& forall|k: u32|
                        k != page_id.0 && final(self).resident(k) ==> final(self).is_dirty(k)
                            == old(self).is_dirty(k)
                    &&& final(self).store().contains_key(page_id.0)
                    &&& final(self).store().remove(page_id.0) == old(self).store().remove(
                        page_id.0,
                    )
                    &&& image_wf(final(self).store()[page_id.0])
                    &&& view_of_image(final(self).store()[page_id.0]) == (PageView {
                        page_type: PageType::LeafTable,
                        right_child: PageId(0),
                        cells: Seq::<CellView>::empty(),
                    })
                    &&& if old(self).disk().free_pages().len() > 0 {
                        &&& page_id == old(self).disk().free_pages()[0]
                        &&& final(self).disk().free_pages() == old(self).disk().free_pages().skip(
                            1,
                        )
                        &&& final(self).disk().header_view() == old(self).disk().header_view()
                    } else {
                        &&& page_id == PageId(old(self).disk().header_view().page_count)
                        &&& final(self).disk().free_pages() == old(self).disk().free_pages()
                        &&& final(self).disk().header_view() == (FileHeader {
                            page_count: (old(self).disk().header_view().page_count + 1) as u32,
                            ..old(self).disk().header_view()
                        })
                    }
                },
                Err(StorageError::InvalidOperation(_)) => {
                    &&& forall|k: u32|
                        final(self).resident(k) ==> final(self).pins(k) == old(self).pins(k)
                    &&& if old(self).disk().free_pages().len() > 0 {
                        old(self).disk().free_pages()[0].0 == 0
                            || old(self).disk().free_pages()[0].0
                            >= old(self).disk().header_view().page_count
                    } else {
                        old(self).disk().header_view().page_count == u32::MAX
                            || old(self).disk().header_view().page_count == 0
                    }
                },
                Err(StorageError::Io(_)) => {
                    &&& forall|k: u32|
                        final(self).resident(k) ==> final(self).pins(k) == old(self).pins(k)
                    &&& !old(self).disk().dependable()
                },
                Err(StorageError::BufferPoolExhausted) => {
                    &&& forall|k: u32|
                        final(self).resident(k) ==> final(self).pins(k) == old(self).pins(k)
                    &&& old(self).frame_ids().len() >= old(self).capacity_view()
                    &&& forall|k: u32| old(self).resident(k) ==> old(self).pins(k) > 0
                },
                Err(_) => false,
            },
    {
        let ghost disk0 = self.disk_manager;
        let ghost store0 = self.store();
        // Allocate from disk manager.
        let allocated = self.disk_manager.allocate_page();
        proof {
            let pages0 = disk0.pages();
            let pages1 = self.disk_manager.pages();
            let count = disk0.header_view().page_count;
            assert forall|k: u32| k != count && #[trigger] pages0.contains_key(k)
                implies pages1.contains_key(k) && pages1[k] == pages0[k] by {
                if pages1 != pages0 {
                    if allocated is Ok {
                        assert(pages1 == pages0.insert(count, zero_page()));
                    } else {
                        assert(pages1.remove(count) == pages0.remove(count));
                        assert(pages0.remove(count).contains_key(k));
                        assert(pages1.remove(count).contains_key(k));
                        assert(pages1.remove(count)[k] == pages0.remove(count)[k]);
                    }
                }
            }
            assert(self.inv());
            assert forall|k: u32| self.pins(k) == old(self).pins(k) by {}
            let next = old(self).next_page();
            assert forall|k: u32| k != next implies #[trigger] pages1.contains_key(k)
                == pages0.contains_key(k) && (pages0.contains_key(k)
                    ==> pages1[k] == pages0[k]) by {
                if allocated is Ok {
                    if disk0.free_pages().len() > 0 {
                        assert(pages1 == pages0);
                    } else {
                        assert(pages1 == pages0.insert(count, zero_page()));
                    }
                } else if pages1 != pages0 {
                    assert(pages1.remove(count) == pages0.remove(count));
                    assert(pages1.remove(count).contains_key(k) == pages1.contains_key(k));
                    assert(pages0.remove(count).contains_key(k) == pages0.contains_key(k));
                    if pages0.contains_key(k) {
                        assert(pages1.remove(count)[k] == pages1[k]);
                        assert(pages0.remove(count)[k] == pages0[k]);
                    }
                }
            }
            assert(self.frames@ == old(self).frames@);
            assert(self.store().remove(next) =~= store0.remove(next));
            assert(self.after_attempt_from(old(self)));
        }
        let ghost tried = *self;
        let page_id = match allocated {
            Ok(page_id) => page_id,
            Err(e) => {
                return Err(e);
            },
        };
        let ghost store_a = self.store();
        proof {
            let pages0 = disk0.pages();
            let pages1 = self.disk_manager.pages();
            assert forall|k: u32| k != page_id.0 implies #[trigger] store_a.contains_key(k)
                == store0.contains_key(k) && (store0.contains_key(k)
                    ==> store_a[k] == store0[k]) by {
                if disk0.free_pages().len() > 0 {
                    assert(pages1 == pages0);
                } else {
                    assert(pages1 == pages0.insert(page_id.0, zero_page()));
                }
            }
        }
        let id = page_id.value();
        if id == 0 || id >= self.disk_manager.header().page_count {
            return Err(StorageError::invalid_operation("the allocated page lies outside the file"));
        }
        let ghost full = *self;
        proof {
            assert(full.frames@ == old(self).frames@);
            assert(full.lru@ == old(self).lru@);
            assert(full.pinned_ids() =~= old(self).pinned_ids());
        }
        if self.frames.len() >= self.capacity && !self.frames.contains_key(&id) {
            match self.evict_one() {
                Ok(()) => {},
                Err(e) => {
                    proof {
                        if e is BufferPoolExhausted {
                            assert forall|k: u32| old(self).resident(k) implies old(self).pins(k)
                                > 0 by {
                                assert(full.resident(k));
                                assert(full.pins(k) > 0);
                            }
                        }
                    }
                    return Err(e);
                },
            }
        }
        // Create a new leaf page by default.
        let page = SlottedPage::new_leaf();
        proof {
            page.lemma_wf();
        }
        let ghost before = self.frames@;
        let ghost mid = *self;
        let ghost store1 = self.store();
        proof {
            assert(forall|k: u32| mid.resident(k) ==> mid.pins(k) == old(self).pins(k));
            assert(store1 == store_a);
        }
        self.frames.insert(id, BufferFrame { page, dirty: true, pin_count: 1 });
        self.lru.access(id);
        proof {
            mid.lru.lemma_wf();
            if !full.resident(id) {
                assert(!before.contains_key(id));
                assert(!mid.lru@.contains(id));
            }
            assert(self.lru@ == old(self).order_after_use(id));
            assert forall|k: u32| #[trigger] self.frames@.contains_key(k) implies self.lru@.contains(
                k,
            ) by {
                if k != id {
                    assert(before.contains_key(k));
                }
                lemma_access_keeps(mid.lru@, id, k);
            }
            assert forall|k: u32| #[trigger] self.lru@.contains(k) implies self.frames@.contains_key(
                k,
            ) by {
                lemma_access_loses(mid.lru@, id, k);
                if k != id {
                    assert(before.contains_key(k));
                }
            }
            assert(self.frames@.dom() =~= before.dom().insert(id));
            if before.contains_key(id) {
                assert(before.dom().insert(id) =~= before.dom());
            }
            assert forall|k: u32| k != id implies #[trigger] self.store().contains_key(k)
                == store0.contains_key(k) && (store0.contains_key(k) ==> self.store()[k]
                == store0[k]) by {
                assert(store1.contains_key(k) == store0.contains_key(k));
                if self.frames@.contains_key(k) {
                    assert(self.frames@[k] == before[k]);
                }
            }
            assert(self.store().remove(id) =~= store0.remove(id));
            assert forall|k: u32| k != id
                && self.resident(k) implies self.pins(k) == old(self).pins(k) by {
                assert(self.frames@[k] == before[k]);
                assert(mid.pins(k) == before[k].pin_count);
            }
            assert forall|k: u32| old(self).pins(k) > 0 implies self.resident(k) by {
                assert(mid.resident(k));
            }
        }
        Ok((page_id, PageGuardMut { page_id }))
    }

    /// Flush a specific page to disk: if it is resident and dirty, it is
    /// written and counts as clean.
    pub fn flush_page(&mut self, page_id: PageId) -> (r: Result<(), StorageError>)
        requires
            old(self).inv(),
        ensures
            final(self).inv(),
            final(self).store() == old(self).store(),
            final(self).frame_ids() == old(self).frame_ids(),
            final(self).lru_view() == old(self).lru_view(),
            final(self).capacity_view() == old(self).capacity_view(),
            final(self).disk().header_view() == old(self).disk().header_view(),
            final(self).disk().free_pages() == old(self).disk().free_pages(),
            forall|k: u32| final(self).pins(k) == old(self).pins(k),
            forall|k: u32|
                final(self).is_dirty(k) == (old(self).is_dirty(k) && !(r is Ok && k == page_id.0)),
            old(self).disk().dependable() ==> final(self).disk().dependable(),
            r is Ok ==> !final(self).is_dirty(page_id.0),
            r is Err ==> (r matches Err(StorageError::Io(_))) && !old(self).disk().dependable(),
    {
        self.write_back(page_id)
    }

    /// Flush all dirty pages to disk, then sync.
    pub fn flush_all(&mut self) -> (r: Result<(), StorageError>)
        requires
            old(self).inv(),
        ensures
            final(self).inv(),
            final(self).store() == old(self).store(),
            final(self).frame_ids() == old(self).frame_ids(),
            final(self).lru_view() == old(self).lru_view(),
            final(self).capacity_view() == old(self).capacity_view(),
            final(self).disk().header_view() == old(self).disk().header_view(),
            final(self).disk().free_pages() == old(self).disk().free_pages(),
            forall|k: u32| final(self).pins(k) == old(self).pins(k),
            forall|k: u32| final(self).is_dirty(k) ==> old(self).is_dirty(k),
            old(self).disk().dependable() ==> final(self).disk().dependable(),
            r is Ok ==> final(self).disk().durable(),
            r is Ok ==> forall|k: u32| !final(self).is_dirty(k),
            r is Err ==> (r matches Err(StorageError::Io(_))) && !old(self).disk().dependable(),
    {
        let page_count = self.disk_manager.header().page_count;
        let mut id: u32 = 1;
        while id < page_count
            invariant
                1 <= id,
                self.inv(),
                page_count == self.disk().header_view().page_count,
                self.store() == old(self).store(),
                self.frame_ids() == old(self).frame_ids(),
                self.capacity_view() == old(self).capacity_view(),
                self.disk().header_view() == old(self).disk().header_view(),
                self.disk().free_pages() == old(self).disk().free_pages(),
                forall|k: u32| self.pins(k) == old(self).pins(k),
                forall|k: u32| self.is_dirty(k) ==> old(self).is_dirty(k),
                forall|k: u32| k < id ==> !self.is_dirty(k),
                self.lru_view() == old(self).lru_view(),
                old(self).disk().dependable() ==> self.disk().dependable(),
            decreases page_count - id,
        {
            let ghost mid = *self;
            match self.write_back(PageId::new(id)) {
                Ok(()) => {},
                Err(e) => {
                    return Err(e);
                },
            }
            proof {
                assert forall|k: u32| k < id + 1 implies !self.is_dirty(k) by {
                    if k < id {
                        assert(!mid.is_dirty(k));
                    }
                }
            }
            id = id + 1;
        }
        let ghost mid = *self;
        let synced = self.disk_manager.sync();
        proof {
            assert(self.frames@ == mid.frames@);
            assert(self.store() =~= mid.store());
            assert forall|k: u32| self.pins(k) == mid.pins(k) by {}
            assert forall|k: u32| self.is_dirty(k) == mid.is_dirty(k) by {}
            assert forall|k: u32| !mid.is_dirty(k) by {
                if mid.frames@.contains_key(k) {
                    assert(k < page_count);
                }
            }
            assert forall|k: u32| !self.is_dirty(k) by {
                assert(self.is_dirty(k) == mid.is_dirty(k));
            }
        }
        synced
    }

    /// Deallocate a page: its frame is dropped without being written, and
    /// the disk manager puts the page on its free list.
    pub fn free_page(&mut self, page_id: PageId) -> (r: Result<(), StorageError>)
        requires
            old(self).inv(),
        ensures
            final(self).inv(),
            final(self).capacity_view() == old(self).capacity_view(),
            final(self).frame_ids() == old(self).frame_ids().remove(page_id.0),
            final(self).lru_view() == without(old(self).lru_view(), page_id.0),
            final(self).store().remove(page_id.0) == old(self).store().remove(page_id.0),
            forall|k: u32| k != page_id.0 ==> final(self).pins(k) == old(self).pins(k),
            forall|k: u32| k != page_id.0 ==> final(self).is_dirty(k) == old(self).is_dirty(k),
            final(self).disk().pages() == old(self).disk().pages(),
            old(self).disk().dependable() ==> final(self).disk().dependable() && !(r matches Err(
                StorageError::Io(_),
            )),
            match r {
                Ok(()) | Err(StorageError::Io(_)) => {
                    &&& page_id.0 != 0
                    &&& final(self).disk().free_pages() == old(self).disk().free_pages().push(
                        page_id,
                    )
                    &&& final(self).disk().header_view() == header_after_free(
                        old(self).disk().header_view(),
                        page_id,
                        final(self).disk().free_pages().len(),
                    )
                },
                Err(StorageError::InvalidOperation(_)) => {
                    &&& page_id.0 == 0
                    &&& final(self).disk().free_pages() == old(self).disk().free_pages()
                    &&& final(self).disk().header_view() == old(self).disk().header_view()
                },
                Err(_) => false,
            },
    {
        let id = page_id.value();
        // Remove from buffer.
        self.frames.remove(&id);
        self.lru.remove(id);
        proof {
            assert(self.frames@.dom() =~= old(self).frames@.dom().remove(id));
            if old(self).frames@.contains_key(id) {
                assert(old(self).frames@.dom().contains(id));
            } else {
                assert(old(self).frames@.dom().remove(id) =~= old(self).frames@.dom());
            }
            old(self).lru.lemma_wf();
            assert forall|k: u32| #[trigger] self.frames@.contains_key(k) implies self.lru@.contains(
                k,
            ) by {
                assert(old(self).frames@.contains_key(k));
                lemma_without_keeps(old(self).lru@, id, k);
            }
            assert forall|k: u32| #[trigger] self.lru@.contains(k) implies self.frames@.contains_key(
                k,
            ) by {
                lemma_without_loses(old(self).lru@, id, k);
            }
            assert(self.inv());
        }
        let ghost mid = *self;
        // Tell disk manager to add to free list.
        let r = self.disk_manager.deallocate_page(page_id);
        proof {
            assert(self.frames@ == mid.frames@);
            assert(self.store().remove(id) =~= old(self).store().remove(id));
            assert forall|k: u32| k != page_id.0 implies self.pins(k) == old(self).pins(k) by {}
        }
        r
    }

    /// Set the root page and height in the file header.
    pub fn set_root_page(&mut self, page_id: PageId, height: u32) -> (r: Result<
        (),
        StorageError,
    >)
        requires
            old(self).inv(),
        ensures
            final(self).inv(),
            final(self).store() == old(self).store(),
            final(self).frame_ids() == old(self).frame_ids(),
            final(self).lru_view() == old(self).lru_view(),
            final(self).capacity_view() == old(self).capacity_view(),
            final(self).disk().free_pages() == old(self).disk().free_pages(),
            final(self).disk().header_view() == (FileHeader {
                root_page: page_id,
                tree_height: height,
                ..old(self).disk().header_view()
            }),
            forall|k: u32| final(self).pins(k) == old(self).pins(k),
            forall|k: u32| final(self).is_dirty(k) == old(self).is_dirty(k),
            old(self).disk().dependable() ==> final(self).disk().dependable() && r is Ok,
            r is Ok || r matches Err(StorageError::Io(_)),
    {
        let r = self.disk_manager.set_root_page(page_id, height);
        proof {
            assert(self.store() =~= old(self).store());
            assert forall|k: u32| self.pins(k) == old(self).pins(k) by {}
            assert forall|k: u32| self.is_dirty(k) == old(self).is_dirty(k) by {}
        }
        r
    }

    /// The disk manager under the pool.
    pub fn disk_manager(&self) -> (r: &D)
        ensures
            *r == self.disk(),
    {
        &self.disk_manager
    }

    /// Get the buffer pool capacity.
    pub fn capacity(&self) -> (r: usize)
        ensures
            r == self.capacity_view(),
    {
        self.capacity
    }

    /// Get the total number of pages in the database.
    pub fn page_count(&self) -> (r: usize)
        requires
            self.inv(),
        ensures
            r == self.disk().header_view().page_count,
    {
        self.disk_manager.header().page_count as usize
    }

    /// Get the root page ID from the file header.
    pub fn root_page(&self) -> (r: PageId)
        requires
            self.inv(),
        ensures
            r == self.disk().header_view().root_page,
    {
        self.disk_manager.header().root_page
    }

    /// Get the tree height from the file header.
    pub fn tree_height(&self) -> (r: u32)
        requires
            self.inv(),
        ensures
            r == self.disk().header_view().tree_height,
    {
        self.disk_manager.header().tree_height
    }
}

impl BufferPoolImpl<DiskManagerImpl> {
    /// Hand out the file actions that the disk manager has queued, in
    /// order. None is left pending.
    pub fn take_actions(&mut self) -> (r: Vec<DiskAction>)
        requires
            old(self).inv(),
        ensures
            final(self).inv(),
            action_views(r@) == old(self).disk().pending(),
            final(self).disk().pending() == Seq::<DiskActionView>::empty(),
            final(self).store() == old(self).store(),
            final(self).frame_ids() == old(self).frame_ids(),
            final(self).lru_view() == old(self).lru_view(),
            final(self).capacity_view() == old(self).capacity_view(),
            final(self).disk().header_view() == old(self).disk().header_view(),
            final(self).disk().free_pages() == old(self).disk().free_pages(),
            final(self).disk().pages() == old(self).disk().pages(),
            final(self).disk().base() == old(self).disk().file(),
            final(self).disk().file() == old(self).disk().file(),
            final(self).disk().durable() == old(self).disk().durable(),
            forall|k: u32| final(self).pins(k) == old(self).pins(k),
            forall|k: u32| final(self).is_dirty(k) == old(self).is_dirty(k),
    {
        let r = self.disk_manager.take_actions();
        proof {
            assert(self.store() =~= old(self).store());
            assert forall|k: u32| self.pins(k) == old(self).pins(k) by {}
        }
        r
    }
}

} // verus!
