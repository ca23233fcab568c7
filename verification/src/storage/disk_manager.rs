//! Disk manager.
//!
//! The disk manager hands out, reads and writes the pages of the database
//! file, and keeps the file header. The rest of the engine sees it through
//! the trait [`DiskManager`], whose contract is stated over the header, the
//! content of every page slot and the free list.
//!
//! [`DiskManagerImpl`] keeps the image of the file in memory and turns every
//! change into a list of file actions, in the order in which they are to
//! be performed on the file; who owns the file performs them.
use crate::error::StorageError;
use crate::page::PageBuf;
use crate::storage::file_header::{FileHeader, spec_read};
use crate::storage::freelist::FreeList;
use crate::types::PAGE_SIZE;
use crate::types::page_id::PageId;
use crate::types::text::numbered;
use std::collections::HashMap;
use vstd::prelude::*;
use vstd::slice::{slice_subrange, slice_to_vec};

verus! {

/// A page of zeros.
pub open spec fn zero_page() -> Seq<u8> {
    Seq::new(PAGE_SIZE as nat, |i: int| 0u8)
}

/// The header once a page was freed: it counts the free pages and names
/// the page freed last.
pub open spec fn header_after_free(h: FileHeader, page_id: PageId, free_len: nat) -> FileHeader {
    FileHeader {
        free_page_count: if free_len > u32::MAX {
            u32::MAX
        } else {
            free_len as u32
        },
        first_free_page: page_id,
        ..h
    }
}

/// Disk operations, page by page.
///
/// An implementation may fail with an I/O error wherever it touches its
/// storage. What it has changed by then is bounded by the contract: a
/// failed write leaves every other page as it was. An implementation
/// that is [dependable](DiskManager::dependable) does not fail so, and
/// stays dependable.
pub trait DiskManager {
    /// What the implementation keeps true of itself.
    spec fn inv(&self) -> bool;

    /// Whether the implementation answers every request without an I/O
    /// error.
    spec fn dependable(&self) -> bool;

    /// Whether all that was written is durable.
    spec fn durable(&self) -> bool;

    /// The file header as it stands.
    spec fn header_view(&self) -> FileHeader;

    /// The content of the page slots.
    spec fn pages(&self) -> Map<u32, Seq<u8>>;

    /// The freed pages, oldest first.
    spec fn free_pages(&self) -> Seq<PageId>;

    /// Read a page. Page 0 is the file header and is not read this way; a
    /// page at or beyond the page count does not exist.
    fn read_page(&mut self, page_id: PageId) -> (r: Result<PageBuf, StorageError>)
        requires
            old(self).inv(),
        ensures
            final(self).inv(),
            old(self).dependable() ==> final(self).dependable() && !(r matches Err(
                StorageError::Io(_),
            )),
            final(self).header_view() == old(self).header_view(),
            final(self).pages() == old(self).pages(),
            final(self).free_pages() == old(self).free_pages(),
            final(self).durable() == old(self).durable(),
            match r {
                Ok(buf) => {
                    &&& page_id.0 != 0
                    &&& page_id.0 < old(self).header_view().page_count
                    &&& old(self).pages().contains_key(page_id.0)
                    &&& buf@ == old(self).pages()[page_id.0]
                    &&& buf@.len() == PAGE_SIZE
                },
                Err(StorageError::InvalidOperation(_)) => page_id.0 == 0,
                Err(StorageError::PageNotFound(p)) => p == page_id && page_id.0 != 0 && page_id.0
                    >= old(self).header_view().page_count,
                Err(StorageError::Io(_)) => page_id.0 != 0
                    && page_id.0 < old(self).header_view().page_count,
                Err(_) => false,
            },
    ;

    /// Write a page. Page 0 and data of another length than a page are
    /// rejected.
    fn write_page(&mut self, page_id: PageId, data: &[u8]) -> (r: Result<(), StorageError>)
        requires
            old(self).inv(),
        ensures
            final(self).inv(),
            old(self).dependable() ==> final(self).dependable() && !(r matches Err(
                StorageError::Io(_),
            )),
            final(self).header_view() == old(self).header_view(),
            final(self).free_pages() == old(self).free_pages(),
            match r {
                Ok(()) => {
                    &&& page_id.0 != 0
                    &&& data@.len() == PAGE_SIZE
                    &&& final(self).pages() == old(self).pages().insert(page_id.0, data@)
                },
                Err(StorageError::InvalidOperation(_)) => {
                    &&& page_id.0 == 0 || data@.len() != PAGE_SIZE
                    &&& final(self).pages() == old(self).pages()
                },
                Err(StorageError::Io(_)) => {
                    &&& page_id.0 != 0
                    &&& data@.len() == PAGE_SIZE
                    &&& final(self).pages().remove(page_id.0) == old(self).pages().remove(
                        page_id.0,
                    )
                },
                Err(_) => false,
            },
    ;

    /// Allocate a page: the page that was freed first, if any; else the
    /// file grows by a page of zeros and the header counts it.
    fn allocate_page(&mut self) -> (r: Result<PageId, StorageError>)
        requires
            old(self).inv(),
        ensures
            final(self).inv(),
            old(self).dependable() ==> final(self).dependable() && !(r matches Err(
                StorageError::Io(_),
            )),
            match r {
                Ok(page_id) => if old(self).free_pages().len() > 0 {
                    &&& page_id == old(self).free_pages()[0]
                    &&& final(self).free_pages() == old(self).free_pages().skip(1)
                    &&& final(self).header_view() == old(self).header_view()
                    &&& final(self).pages() == old(self).pages()
                } else {
                    &&& old(self).header_view().page_count < u32::MAX
                    &&& page_id == PageId(old(self).header_view().page_count)
                    &&& final(self).free_pages() == old(self).free_pages()
                    &&& final(self).header_view() == (FileHeader {
                        page_count: (old(self).header_view().page_count + 1) as u32,
                        ..old(self).header_view()
                    })
                    &&& final(self).pages() == old(self).pages().insert(page_id.0, zero_page())
                },
                Err(StorageError::InvalidOperation(_)) => {
                    &&& old(self).free_pages().len() == 0
                    &&& old(self).header_view().page_count == u32::MAX
                    &&& final(self).free_pages() == old(self).free_pages()
                    &&& final(self).header_view() == old(self).header_view()
                    &&& final(self).pages() == old(self).pages()
                },
                Err(StorageError::Io(_)) => {
                    &&& old(self).free_pages().len() == 0
                    &&& old(self).header_view().page_count < u32::MAX
                    &&& final(self).free_pages() == old(self).free_pages()
                    &&& final(self).header_view() == old(self).header_view()
                        || final(self).header_view() == (FileHeader {
                        page_count: (old(self).header_view().page_count + 1) as u32,
                        ..old(self).header_view()
                    })
                    &&& final(self).pages().remove(old(self).header_view().page_count) == old(self).pages().remove(old(self).header_view().page_count)
                },
                Err(_) => false,
            },
    ;

    /// Deallocate a page: it joins the free list, and the header counts
    /// it. The header page itself cannot be freed.
    fn deallocate_page(&mut self, page_id: PageId) -> (r: Result<(), StorageError>)
        requires
            old(self).inv(),
        ensures
            final(self).inv(),
            old(self).dependable() ==> final(self).dependable() && !(r matches Err(
                StorageError::Io(_),
            )),
            final(self).pages() == old(self).pages(),
            match r {
                Ok(()) | Err(StorageError::Io(_)) => {
                    &&& page_id.0 != 0
                    &&& final(self).free_pages() == old(self).free_pages().push(page_id)
                    &&& final(self).header_view() == header_after_free(
                        old(self).header_view(),
                        page_id,
                        final(self).free_pages().len(),
                    )
                },
                Err(StorageError::InvalidOperation(_)) => {
                    &&& page_id.0 == 0
                    &&& final(self).free_pages() == old(self).free_pages()
                    &&& final(self).header_view() == old(self).header_view()
                },
                Err(_) => false,
            },
    ;

    /// Sync all data to disk.
    fn sync(&mut self) -> (r: Result<(), StorageError>)
        requires
            old(self).inv(),
        ensures
            final(self).inv(),
            old(self).dependable() ==> final(self).dependable() && !(r matches Err(
                StorageError::Io(_),
            )),
            final(self).header_view() == old(self).header_view(),
            final(self).pages() == old(self).pages(),
            final(self).free_pages() == old(self).free_pages(),
            r is Ok ==> final(self).durable(),
            r is Ok || r matches Err(StorageError::Io(_)),
    ;

    /// Get the file header.
    fn header(&self) -> (r: FileHeader)
        requires
            self.inv(),
        ensures
            r == self.header_view(),
    ;

    /// Record the root page and the height of the tree in the header.
    fn set_root_page(&mut self, page_id: PageId, height: u32) -> (r: Result<(), StorageError>)
        requires
            old(self).inv(),
        ensures
            final(self).inv(),
            old(self).dependable() ==> final(self).dependable() && !(r matches Err(
                StorageError::Io(_),
            )),
            final(self).pages() == old(self).pages(),
            final(self).free_pages() == old(self).free_pages(),
            final(self).header_view() == (FileHeader {
                root_page: page_id,
                tree_height: height,
                ..old(self).header_view()
            }),
            r is Ok || r matches Err(StorageError::Io(_)),
    ;
}

/// What is to be done to the database file.
#[derive(Debug)]
pub enum DiskAction {
    /// Write `data` at byte `offset`.
    Write { offset: u64, data: Vec<u8> },
    /// Make the data written so far durable.
    SyncData,
    /// Make data and file metadata durable.
    SyncAll,
}

/// What a file action stands for.
pub ghost enum DiskActionView {
    Write { offset: u64, data: Seq<u8> },
    SyncData,
    SyncAll,
}

impl View for DiskAction {
    type V = DiskActionView;

    open spec fn view(&self) -> DiskActionView {
        match self {
            DiskAction::Write { offset, data } => DiskActionView::Write {
                offset: *offset,
                data: data@,
            },
            DiskAction::SyncData => DiskActionView::SyncData,
            DiskAction::SyncAll => DiskActionView::SyncAll,
        }
    }
}

/// The models of a list of actions.
pub open spec fn action_views(actions: Seq<DiskAction>) -> Seq<DiskActionView> {
    Seq::new(actions.len(), |i: int| actions[i]@)
}

/// The actions that bring the header `h` to the file: its page written at
/// the start of the file, made durable at once where every write is.
pub open spec fn header_flush(h: FileHeader, sync_on_write: bool) -> Seq<DiskActionView> {
    let write = seq![DiskActionView::Write { offset: 0, data: h.image() }];
    if sync_on_write {
        write.push(DiskActionView::SyncData)
    } else {
        write
    }
}

/// The actions that bring a page to the file.
pub open spec fn page_flush(page_id: PageId, data: Seq<u8>, sync_on_write: bool) -> Seq<
    DiskActionView,
> {
    let write = seq![
        DiskActionView::Write { offset: (page_id.0 * PAGE_SIZE) as u64, data },
    ];
    if sync_on_write {
        write.push(DiskActionView::SyncData)
    } else {
        write
    }
}

/// Page `id` of a file image, if the image holds all of it.
pub open spec fn page_of_image(image: Seq<u8>, id: u32) -> Option<Seq<u8>> {
    if (id + 1) * PAGE_SIZE <= image.len() {
        Some(image.subrange(id * PAGE_SIZE, (id + 1) * PAGE_SIZE))
    } else {
        None
    }
}

/// The pages of a file image whose header counts `page_count` pages: every
/// page after the header that the image holds in full.
pub open spec fn pages_of_image(image: Seq<u8>, page_count: u32) -> Map<u32, Seq<u8>> {
    Map::new(
        |id: u32| 1 <= id < page_count && page_of_image(image, id) is Some,
        |id: u32| page_of_image(image, id).unwrap(),
    )
}

/// The file once `data` was written at byte `offset`. Where the file
/// ended before the place of the write, zeros fill the gap.
pub open spec fn written(image: Seq<u8>, offset: nat, data: Seq<u8>) -> Seq<u8> {
    Seq::new(
        if image.len() >= offset + data.len() {
            image.len()
        } else {
            offset + data.len()
        },
        |i: int|
            if offset <= i < offset + data.len() {
                data[i - offset]
            } else if i < image.len() {
                image[i]
            } else {
                0u8
            },
    )
}

/// The file once the actions were performed on it, in order. Only a
/// write changes what the file holds.
pub open spec fn performed(image: Seq<u8>, actions: Seq<DiskActionView>) -> Seq<u8>
    decreases actions.len(),
{
    if actions.len() == 0 {
        image
    } else {
        let before = performed(image, actions.drop_last());
        match actions.last() {
            DiskActionView::Write { offset, data } => written(before, offset as nat, data),
            _ => before,
        }
    }
}

/// The file image holds each of `pages` below `page_count` at its place.
pub open spec fn pages_held(image: Seq<u8>, page_count: u32, pages: Map<u32, Seq<u8>>) -> bool {
    forall|id: u32|
        0 < id < page_count && #[trigger] pages.contains_key(id) ==> page_of_image(image, id)
            == Some(pages[id])
}

/// The file image holds the header `h` in its first page, and each of
/// `pages` that the header counts at its place.
pub open spec fn holds(image: Seq<u8>, h: FileHeader, pages: Map<u32, Seq<u8>>) -> bool {
    &&& image.len() >= PAGE_SIZE
    &&& spec_read(image.subrange(0, PAGE_SIZE as int)) == Some(h)
    &&& pages_held(image, h.page_count, pages)
}

/// Actions performed one list after another are the two lists performed
/// as one.
pub proof fn lemma_performed_more(image: Seq<u8>, a: Seq<DiskActionView>, b: Seq<DiskActionView>)
    ensures
        performed(image, a + b) == performed(performed(image, a), b),
    decreases b.len(),
{
    if b.len() == 0 {
        assert(a + b =~= a);
    } else {
        lemma_performed_more(image, a, b.drop_last());
        assert((a + b).drop_last() =~= a + b.drop_last());
        assert((a + b).last() == b.last());
    }
}

/// A page written at its place is held there; the first page and every
/// other page stay as they were.
proof fn lemma_page_written(
    image: Seq<u8>,
    page_count: u32,
    pages: Map<u32, Seq<u8>>,
    id: u32,
    data: Seq<u8>,
)
    requires
        image.len() >= PAGE_SIZE,
        pages_held(image, page_count, pages),
        id != 0,
        data.len() == PAGE_SIZE,
    ensures
        written(image, (id * PAGE_SIZE) as nat, data).len() >= PAGE_SIZE,
        written(image, (id * PAGE_SIZE) as nat, data).subrange(0, PAGE_SIZE as int)
            == image.subrange(0, PAGE_SIZE as int),
        page_of_image(written(image, (id * PAGE_SIZE) as nat, data), id) == Some(data),
        pages_held(written(image, (id * PAGE_SIZE) as nat, data), page_count, pages.insert(id, data)),
{
    let w = written(image, (id * PAGE_SIZE) as nat, data);
    assert(w.subrange(0, PAGE_SIZE as int) =~= image.subrange(0, PAGE_SIZE as int));
    assert(w.subrange(id * PAGE_SIZE, (id + 1) * PAGE_SIZE) =~= data);
    assert forall|j: u32|
        0 < j < page_count
            && #[trigger] pages.insert(id, data).contains_key(j) implies page_of_image(
        w,
        j,
    ) == Some(pages.insert(id, data)[j]) by {
        if j != id {
            assert(pages.contains_key(j));
            assert(page_of_image(image, j) == Some(pages[j]));
            assert(w.subrange(j * PAGE_SIZE, (j + 1) * PAGE_SIZE) =~= image.subrange(
                j * PAGE_SIZE,
                (j + 1) * PAGE_SIZE,
            ));
        }
    }
}

/// A header written to the first page is read back from it; every other
/// page stays as it was.
proof fn lemma_header_written(
    image: Seq<u8>,
    page_count: u32,
    pages: Map<u32, Seq<u8>>,
    h: FileHeader,
)
    requires
        pages_held(image, page_count, pages),
        h.page_size == PAGE_SIZE,
    ensures
        written(image, 0, h.image()).len() >= PAGE_SIZE,
        spec_read(written(image, 0, h.image()).subrange(0, PAGE_SIZE as int)) == Some(h),
        pages_held(written(image, 0, h.image()), page_count, pages),
{
    let w = written(image, 0, h.image());
    h.lemma_image_fields(Seq::<u8>::empty());
    assert(h.image() + Seq::<u8>::empty() =~= h.image());
    assert(w.subrange(0, PAGE_SIZE as int) =~= h.image());
    h.lemma_write_read(h.image());
    assert(h.spec_write(h.image()) =~= h.image());
    assert forall|j: u32| 0 < j < page_count
        && #[trigger] pages.contains_key(j) implies page_of_image(
        w,
        j,
    ) == Some(pages[j]) by {
        assert(page_of_image(image, j) == Some(pages[j]));
        assert(w.subrange(j * PAGE_SIZE, (j + 1) * PAGE_SIZE) =~= image.subrange(
            j * PAGE_SIZE,
            (j + 1) * PAGE_SIZE,
        ));
    }
}

/// One more action performed: a write changes the file, a sync does not.
pub proof fn lemma_performed_push(image: Seq<u8>, a: Seq<DiskActionView>, x: DiskActionView)
    ensures
        performed(image, a.push(x)) == (match x {
            DiskActionView::Write { offset, data } => written(
                performed(image, a),
                offset as nat,
                data,
            ),
            _ => performed(image, a),
        }),
{
    assert(a.push(x).drop_last() =~= a);
    assert(a.push(x).last() == x);
}

/// Queued after other actions, the actions that bring a header to the
/// file write its page at the start of the file.
proof fn lemma_performed_header(
    image: Seq<u8>,
    a: Seq<DiskActionView>,
    h: FileHeader,
    sync_on_write: bool,
)
    ensures
        performed(image, a + header_flush(h, sync_on_write)) == written(
            performed(image, a),
            0,
            h.image(),
        ),
{
    lemma_performed_more(image, a, header_flush(h, sync_on_write));
    let f = performed(image, a);
    let none = Seq::<DiskActionView>::empty();
    let write = DiskActionView::Write { offset: 0, data: h.image() };
    lemma_performed_push(f, none, write);
    assert(none.push(write) =~= seq![write]);
    assert(performed(f, none) == f);
    lemma_performed_push(f, seq![write], DiskActionView::SyncData);
}

/// Queued after other actions, the actions that bring a page to the file
/// write it at its place.
proof fn lemma_performed_page(
    image: Seq<u8>,
    a: Seq<DiskActionView>,
    page_id: PageId,
    data: Seq<u8>,
    sync_on_write: bool,
)
    ensures
        performed(image, a + page_flush(page_id, data, sync_on_write)) == written(
            performed(image, a),
            (page_id.0 * PAGE_SIZE) as nat,
            data,
        ),
{
    lemma_performed_more(image, a, page_flush(page_id, data, sync_on_write));
    let f = performed(image, a);
    let none = Seq::<DiskActionView>::empty();
    let write = DiskActionView::Write { offset: (page_id.0 * PAGE_SIZE) as u64, data };
    lemma_performed_push(f, none, write);
    assert(none.push(write) =~= seq![write]);
    assert(performed(f, none) == f);
    lemma_performed_push(f, seq![write], DiskActionView::SyncData);
}

/// The operating system's error for a file that ends too early. Calls
/// `std::io::Error::from` on `ErrorKind::UnexpectedEof`.
#[verifier::external_body]
fn unexpected_end_of_file() -> std::io::Error {
    std::io::Error::from(std::io::ErrorKind::UnexpectedEof)
}

/// Disk manager over an image of the database file held in memory.
pub struct DiskManagerImpl {
    /// The file header.
    header: FileHeader,
    /// Free list for page reuse.
    free_list: FreeList,
    /// The pages of the file, by page number.
    store: HashMap<u32, Vec<u8>>,
    /// What is still to be done to the file, in order.
    actions: Vec<DiskAction>,
    /// Whether every write is made durable at once.
    sync_on_write: bool,
    /// The file as it stood when the actions were last handed out.
    base: Ghost<Seq<u8>>,
    /// Whether the actions handed out last ended by making the file
    /// durable.
    settled: Ghost<bool>,
}

impl DiskManagerImpl {
    /// The actions that are still to be performed on the file, in order.
    pub closed spec fn pending(&self) -> Seq<DiskActionView> {
        action_views(self.actions@)
    }

    /// Whether every write is made durable at once.
    pub closed spec fn syncs_on_write(&self) -> bool {
        self.sync_on_write
    }

    /// Whether the actions that were handed out last ended by making the
    /// file durable; true of a database just opened.
    pub closed spec fn handed_out_durable(&self) -> bool {
        self.settled@
    }

    /// The file as it stood when the database was opened or, later, once
    /// the actions that were handed out last were performed.
    pub closed spec fn base(&self) -> Seq<u8> {
        self.base@
    }

    /// The file as it stands once the pending actions are performed.
    pub open spec fn file(&self) -> Seq<u8> {
        performed(self.base(), self.pending())
    }

    /// The store is well formed, the header names the page size, and the
    /// file holds the pages that the store has.
    spec fn pages_ok(&self) -> bool {
        &&& self.store_wf()
        &&& self.header.page_size == PAGE_SIZE
        &&& pages_held(self.file(), self.header.page_count, self.store_view())
    }

    /// Once the pending actions are performed, the file holds the header
    /// and the pages as the manager has them.
    pub proof fn lemma_file(&self)
        requires
            self.inv(),
        ensures
            holds(self.file(), self.header_view(), self.pages()),
    {
    }

    /// The store holds whole pages.
    pub closed spec fn store_wf(&self) -> bool {
        forall|id: u32| #[trigger]
            self.store@.contains_key(id) ==> self.store@[id]@.len() == PAGE_SIZE
    }

    /// The content of the page slots, by page number.
    pub closed spec fn store_view(&self) -> Map<u32, Seq<u8>> {
        Map::new(|id: u32| self.store@.contains_key(id), |id: u32| self.store@[id]@)
    }

    /// The store holds every page that the header counts.
    spec fn complete(&self) -> bool {
        forall|id: u32| 0 < id < self.header.page_count ==> #[trigger] self.store@.contains_key(id)
    }

    /// The image is dependable exactly where the store is complete.
    proof fn lemma_complete(&self)
        ensures
            self.dependable() == self.complete(),
    {
        assert forall|id: u32|
            self.pages().contains_key(id) == #[trigger] self.store@.contains_key(id) by {}
        if self.complete() {
            assert forall|id: u32| 0 < id < self.header_view().page_count implies #[trigger]
                self.pages().contains_key(id) by {
                assert(self.store@.contains_key(id));
            }
        }
        if self.dependable() {
            assert forall|id: u32| 0 < id < self.header.page_count implies #[trigger]
                self.store@.contains_key(id) by {
                assert(self.pages().contains_key(id));
            }
        }
    }

    /// Open a database from the image of its file, or create one.
    ///
    /// An image of at least a page is an existing database: its header is
    /// read, and its pages are those that the image holds in full. A
    /// shorter image stands for a new file: the database is empty, and
    /// its header is to be written and made durable.
    pub fn open(image: &[u8], sync_on_write: bool) -> (r: Result<Self, StorageError>)
        ensures
            match r {
                Ok(disk) => {
                    &&& disk.inv()
                    &&& disk.base() == image@
                    &&& disk.syncs_on_write() == sync_on_write
                    &&& disk.free_pages() == Seq::<PageId>::empty()
                    &&& if image@.len() >= PAGE_SIZE {
                        &&& spec_read(image@.subrange(0, PAGE_SIZE as int)) == Some(
                            disk.header_view(),
                        )
                        &&& disk.pages() == pages_of_image(image@, disk.header_view().page_count)
                        &&& disk.pending() == Seq::<DiskActionView>::empty()
                    } else {
                        &&& disk.header_view() == FileHeader::new()
                        &&& disk.pages() == Map::<u32, Seq<u8>>::empty()
                        &&& disk.pending() == seq![
                            DiskActionView::Write { offset: 0, data: FileHeader::new().image() },
                            DiskActionView::SyncAll,
                        ]
                    }
                },
                Err(StorageError::InvalidDatabaseFile(_)) => {
                    &&& image@.len() >= PAGE_SIZE
                    &&& spec_read(image@.subrange(0, PAGE_SIZE as int)) is None
                },
                Err(_) => false,
            },
    {
        if image.len() >= PAGE_SIZE {
            let header = match FileHeader::read(slice_subrange(image, 0, PAGE_SIZE)) {
                Ok(header) => header,
                Err(e) => {
                    return Err(e);
                },
            };
            let mut store: HashMap<u32, Vec<u8>> = HashMap::new();
            let whole: usize = image.len() / PAGE_SIZE;
            let limit: usize = if (header.page_count as usize) < whole {
                header.page_count as usize
            } else {
                whole
            };
            let mut id: usize = 1;
            while id < limit
                invariant
                    1 <= id,
                    limit <= whole,
                    limit <= header.page_count,
                    whole == image@.len() / (PAGE_SIZE as nat),
                    whole * 4096 <= image@.len(),
                    image@.len() <= usize::MAX,
                    forall|k: u32| #[trigger]
                        store@.contains_key(k) <==> 1 <= k < id && k < limit,
                    forall|k: u32| #[trigger]
                        store@.contains_key(k) ==> store@[k]@ == page_of_image(image@, k).unwrap(),
                decreases limit - id,
            {
                assert((id + 1) * 4096 <= whole * 4096);
                let start: usize = id * PAGE_SIZE;
                let page = slice_to_vec(slice_subrange(image, start, start + PAGE_SIZE));
                store.insert(id as u32, page);
                id = id + 1;
            }
            let disk = DiskManagerImpl {
                header,
                free_list: FreeList::new(),
                store,
                actions: Vec::new(),
                sync_on_write,
                base: Ghost(image@),
                settled: Ghost(true),
            };
            proof {
                assert(disk.store_view() =~= pages_of_image(image@, header.page_count));
                assert(action_views(disk.actions@) =~= Seq::<DiskActionView>::empty());
                assert(disk.file() == image@);
            }
            Ok(disk)
        } else {
            let header = FileHeader::new();
            let mut buf: Vec<u8> = vec![0u8; PAGE_SIZE];
            header.write(buf.as_mut_slice());
            let mut actions: Vec<DiskAction> = Vec::new();
            actions.push(DiskAction::Write { offset: 0, data: buf });
            actions.push(DiskAction::SyncAll);
            let disk = DiskManagerImpl {
                header,
                free_list: FreeList::new(),
                store: HashMap::new(),
                actions,
                sync_on_write,
                base: Ghost(image@),
                settled: Ghost(true),
            };
            proof {
                assert(buf@ =~= header.image());
                assert(disk.store_view() =~= Map::<u32, Seq<u8>>::empty());
                let write = seq![
                    DiskActionView::Write { offset: 0, data: FileHeader::new().image() },
                ];
                assert(action_views(disk.actions@) =~= seq![
                    DiskActionView::Write { offset: 0, data: FileHeader::new().image() },
                    DiskActionView::SyncAll,
                ]);
                let none = Seq::<DiskActionView>::empty();
                assert(none.push(write[0]) =~= write);
                assert(write.push(DiskActionView::SyncAll) =~= disk.pending());
                assert(performed(image@, none) == image@);
                lemma_performed_push(image@, none, write[0]);
                lemma_performed_push(image@, write, DiskActionView::SyncAll);
                assert(disk.file() == written(image@, 0, header.image()));
                lemma_header_written(image@, 1, disk.store_view(), header);
            }
            Ok(disk)
        }
    }

    /// Hand out the actions that are still to be performed on the file,
    /// in order. None is left pending.
    pub fn take_actions(&mut self) -> (r: Vec<DiskAction>)
        requires
            old(self).inv(),
        ensures
            final(self).inv(),
            action_views(r@) == old(self).pending(),
            final(self).pending() == Seq::<DiskActionView>::empty(),
            final(self).header_view() == old(self).header_view(),
            final(self).pages() == old(self).pages(),
            final(self).free_pages() == old(self).free_pages(),
            final(self).syncs_on_write() == old(self).syncs_on_write(),
            final(self).base() == old(self).file(),
            final(self).file() == old(self).file(),
            final(self).durable() == old(self).durable(),
    {
        let mut taken: Vec<DiskAction> = Vec::new();
        std::mem::swap(&mut self.actions, &mut taken);
        self.settled = Ghost(old(self).durable());
        self.base = Ghost(performed(self.base@, action_views(taken@)));
        proof {
            assert(action_views(self.actions@) =~= Seq::<DiskActionView>::empty());
        }
        taken
    }

    /// Queue the actions that bring the header to the file.
    fn flush_header(&mut self)
        requires
            old(self).pages_ok(),
        ensures
            final(self).inv(),
            final(self).base() == old(self).base(),
            final(self).header == old(self).header,
            final(self).free_list == old(self).free_list,
            final(self).store == old(self).store,
            final(self).sync_on_write == old(self).sync_on_write,
            final(self).complete() == old(self).complete(),
            final(self).pending() == old(self).pending() + header_flush(
                old(self).header,
                old(self).sync_on_write,
            ),
    {
        let mut buf: Vec<u8> = vec![0u8; PAGE_SIZE];
        self.header.write(buf.as_mut_slice());
        proof {
            assert(buf@ =~= self.header.image());
        }
        self.actions.push(DiskAction::Write { offset: 0, data: buf });
        if self.sync_on_write {
            self.actions.push(DiskAction::SyncData);
        }
        proof {
            assert(action_views(self.actions@) =~= old(self).pending() + header_flush(
                old(self).header,
                old(self).sync_on_write,
            ));
            lemma_performed_header(
                self.base@,
                old(self).pending(),
                self.header,
                self.sync_on_write,
            );
            lemma_header_written(
                old(self).file(),
                self.header.page_count,
                self.store_view(),
                self.header,
            );
        }
    }
}

impl DiskManager for DiskManagerImpl {
    closed spec fn inv(&self) -> bool {
        &&& self.store_wf()
        &&& self.header.page_size == PAGE_SIZE
        &&& holds(self.file(), self.header, self.store_view())
    }

    /// What was written is durable once the pending actions are
    /// performed where the last of them makes the file durable; where
    /// none is pending, where the last of those handed out did.
    open spec fn durable(&self) -> bool {
        if self.pending().len() == 0 {
            self.handed_out_durable()
        } else {
            self.pending().last() == DiskActionView::SyncAll || self.pending().last()
                == DiskActionView::SyncData
        }
    }

    /// The image is dependable where it holds every page that the header
    /// counts.
    open spec fn dependable(&self) -> bool {
        forall|id: u32|
            0 < id < self.header_view().page_count ==> #[trigger] self.pages().contains_key(id)
    }

    closed spec fn header_view(&self) -> FileHeader {
        self.header
    }

    closed spec fn pages(&self) -> Map<u32, Seq<u8>> {
        self.store_view()
    }

    closed spec fn free_pages(&self) -> Seq<PageId> {
        self.free_list@
    }

    /// Reading succeeds for every page that the header counts and the
    /// image holds in full, and queues nothing.
    fn read_page(&mut self, page_id: PageId) -> (r: Result<PageBuf, StorageError>)
        ensures
            r is Ok <==> page_id.0 != 0 && page_id.0 < old(self).header_view().page_count
                && old(self).pages().contains_key(page_id.0),
            final(self).pending() == old(self).pending(),
            final(self).syncs_on_write() == old(self).syncs_on_write(),
            final(self).base() == old(self).base(),
    {
        if page_id.value() == 0 {
            return Err(StorageError::invalid_operation("cannot read header page directly"));
        }
        if page_id.value() >= self.header.page_count {
            return Err(StorageError::PageNotFound(page_id));
        }
        match self.store.get(&page_id.value()) {
            Some(data) => {
                let buf = PageBuf::from_bytes(data.as_slice());
                proof {
                    assert(buf@ =~= data@);
                }
                Ok(buf)
            },
            None => {
                proof {
                    self.lemma_complete();
                    assert(!self.complete());
                }
                Err(StorageError::Io(unexpected_end_of_file()))
            },
        }
    }

    /// Writing a whole page to a page other than the header succeeds, and
    /// queues the write; a rejected write queues nothing.
    fn write_page(&mut self, page_id: PageId, data: &[u8]) -> (r: Result<(), StorageError>)
        ensures
            r is Ok <==> page_id.0 != 0 && data@.len() == PAGE_SIZE,
            final(self).syncs_on_write() == old(self).syncs_on_write(),
            final(self).base() == old(self).base(),
            final(self).pending() == if r is Ok {
                old(self).pending() + page_flush(page_id, data@, old(self).syncs_on_write())
            } else {
                old(self).pending()
            },
    {
        if page_id.value() == 0 {
            return Err(StorageError::invalid_operation("cannot write header page directly"));
        }
        if data.len() != PAGE_SIZE {
            let start = numbered("page data must be ", PAGE_SIZE, " bytes, got ");
            let text = numbered(start.as_str(), data.len(), "");
            return Err(StorageError::invalid_operation(text.as_str()));
        }
        let offset = page_id.file_offset(PAGE_SIZE);
        self.store.insert(page_id.value(), slice_to_vec(data));
        self.actions.push(DiskAction::Write { offset, data: slice_to_vec(data) });
        if self.sync_on_write {
            self.actions.push(DiskAction::SyncData);
        }
        proof {
            assert(self.store_view() =~= old(self).store_view().insert(page_id.0, data@));
            old(self).lemma_complete();
            self.lemma_complete();
            if old(self).complete() {
                assert forall|id: u32| 0 < id < self.header.page_count implies #[trigger]
                    self.store@.contains_key(id) by {
                    assert(old(self).store@.contains_key(id));
                }
            }
            assert(action_views(self.actions@) =~= old(self).pending() + page_flush(
                page_id,
                data@,
                old(self).sync_on_write,
            ));
            lemma_performed_page(
                self.base@,
                old(self).pending(),
                page_id,
                data@,
                old(self).sync_on_write,
            );
            lemma_page_written(
                old(self).file(),
                self.header.page_count,
                old(self).store_view(),
                page_id.0,
                data@,
            );
        }
        Ok(())
    }

    /// Allocation succeeds while a freed page is left or the page count
    /// can grow. A reused page queues nothing; a new page queues the
    /// write of a page of zeros at its place, then the header.
    fn allocate_page(&mut self) -> (r: Result<PageId, StorageError>)
        ensures
            r is Ok <==> old(self).free_pages().len() > 0 || old(self).header_view().page_count
                < u32::MAX,
            final(self).syncs_on_write() == old(self).syncs_on_write(),
            final(self).base() == old(self).base(),
            final(self).pending() == if r is Ok && old(self).free_pages().len() == 0 {
                old(self).pending().push(
                    DiskActionView::Write {
                        offset: (old(self).header_view().page_count * PAGE_SIZE) as u64,
                        data: zero_page(),
                    },
                ) + header_flush(final(self).header_view(), old(self).syncs_on_write())
            } else {
                old(self).pending()
            },
    {
        // First try the free list.
        match self.free_list.pop() {
            Some(page_id) => {
                proof {
                    old(self).lemma_complete();
                    self.lemma_complete();
                    if old(self).complete() {
                        assert forall|id: u32| 0 < id < self.header.page_count implies #[trigger]
                            self.store@.contains_key(id) by {
                            assert(old(self).store@.contains_key(id));
                        }
                    }
                }
                return Ok(page_id);
            },
            None => {},
        }
        if self.header.page_count == u32::MAX {
            proof {
                old(self).lemma_complete();
                self.lemma_complete();
                if old(self).complete() {
                    assert forall|id: u32| 0 < id < self.header.page_count implies #[trigger]
                        self.store@.contains_key(id) by {
                        assert(old(self).store@.contains_key(id));
                    }
                }
            }
            return Err(StorageError::invalid_operation("the file cannot hold another page"));
        }
        // Allocate a new page and extend the file.
        let page_id = self.header.allocate_page();
        let offset = page_id.file_offset(PAGE_SIZE);
        let zeros: Vec<u8> = vec![0u8; PAGE_SIZE];
        self.store.insert(page_id.value(), zeros);
        let blank: Vec<u8> = vec![0u8; PAGE_SIZE];
        proof {
            assert(blank@ =~= zero_page());
        }
        self.actions.push(DiskAction::Write { offset, data: blank });
        proof {
            assert(self.store@[page_id.0]@ =~= zero_page());
            assert(self.store_view() =~= old(self).store_view().insert(page_id.0, zero_page()));
            assert(action_views(self.actions@) =~= old(self).pending().push(
                DiskActionView::Write {
                    offset: (old(self).header_view().page_count * PAGE_SIZE) as u64,
                    data: zero_page(),
                },
            ));
            if old(self).complete() {
                assert forall|id: u32| 0 < id < self.header.page_count implies #[trigger]
                    self.store@.contains_key(id) by {
                    if id != page_id.0 {
                        assert(old(self).store@.contains_key(id));
                    }
                }
            }
            let write = DiskActionView::Write {
                offset: (old(self).header_view().page_count * PAGE_SIZE) as u64,
                data: zero_page(),
            };
            lemma_performed_push(self.base@, old(self).pending(), write);
            if page_id.0 != 0 {
                lemma_page_written(
                    old(self).file(),
                    old(self).header.page_count,
                    old(self).store_view(),
                    page_id.0,
                    zero_page(),
                );
            }
            assert(pages_held(self.file(), self.header.page_count, self.store_view())) by {
                assert forall|id: u32|
                    0 < id < self.header.page_count && #[trigger] self.store_view().contains_key(
                        id,
                    ) implies page_of_image(self.file(), id) == Some(self.store_view()[id]) by {
                    if id != page_id.0 {
                        assert(old(self).store_view().insert(page_id.0, zero_page()).contains_key(
                            id,
                        ));
                    }
                }
            }
        }
        // Update header on disk.
        self.flush_header();
        proof {
            old(self).lemma_complete();
            self.lemma_complete();
        }
        Ok(page_id)
    }

    /// Freeing any page but the header succeeds, and queues the header.
    fn deallocate_page(&mut self, page_id: PageId) -> (r: Result<(), StorageError>)
        ensures
            r is Ok <==> page_id.0 != 0,
            final(self).syncs_on_write() == old(self).syncs_on_write(),
            final(self).base() == old(self).base(),
            final(self).pending() == if r is Ok {
                old(self).pending() + header_flush(
                    final(self).header_view(),
                    old(self).syncs_on_write(),
                )
            } else {
                old(self).pending()
            },
    {
        if page_id.value() == 0 {
            return Err(StorageError::invalid_operation("cannot deallocate header page"));
        }
        self.free_list.push(page_id);
        let free: usize = self.free_list.len();
        self.header.free_page_count = if free > 0xFFFF_FFFF {
            0xFFFF_FFFF
        } else {
            free as u32
        };
        self.header.first_free_page = page_id;
        proof {
            if old(self).complete() {
                assert forall|id: u32| 0 < id < self.header.page_count implies #[trigger]
                    self.store@.contains_key(id) by {
                    assert(old(self).store@.contains_key(id));
                }
            }
        }
        self.flush_header();
        proof {
            old(self).lemma_complete();
            self.lemma_complete();
        }
        Ok(())
    }

    /// A sync succeeds; it queues the header and then makes the whole
    /// file durable.
    fn sync(&mut self) -> (r: Result<(), StorageError>)
        ensures
            r is Ok,
            final(self).syncs_on_write() == old(self).syncs_on_write(),
            final(self).base() == old(self).base(),
            final(self).pending() == (old(self).pending() + header_flush(
                old(self).header_view(),
                old(self).syncs_on_write(),
            )).push(DiskActionView::SyncAll),
    {
        self.flush_header();
        let ghost flushed = *self;
        self.actions.push(DiskAction::SyncAll);
        proof {
            assert(action_views(self.actions@) =~= flushed.pending().push(
                DiskActionView::SyncAll,
            ));
            lemma_performed_push(self.base@, flushed.pending(), DiskActionView::SyncAll);
            assert(self.file() == flushed.file());
            assert(self.store_view() == flushed.store_view());
            old(self).lemma_complete();
            self.lemma_complete();
            assert(action_views(self.actions@) =~= (old(self).pending() + header_flush(
                old(self).header_view(),
                old(self).syncs_on_write(),
            )).push(DiskActionView::SyncAll));
        }
        Ok(())
    }

    fn header(&self) -> (r: FileHeader) {
        self.header
    }

    /// Recording the root succeeds, and queues the header.
    fn set_root_page(&mut self, page_id: PageId, height: u32) -> (r: Result<(), StorageError>)
        ensures
            r is Ok,
            final(self).syncs_on_write() == old(self).syncs_on_write(),
            final(self).base() == old(self).base(),
            final(self).pending() == old(self).pending() + header_flush(
                final(self).header_view(),
                old(self).syncs_on_write(),
            ),
    {
        self.header.root_page = page_id;
        self.header.tree_height = height;
        proof {
            if old(self).complete() {
                assert forall|id: u32| 0 < id < self.header.page_count implies #[trigger]
                    self.store@.contains_key(id) by {
                    assert(old(self).store@.contains_key(id));
                }
            }
        }
        self.flush_header();
        proof {
            old(self).lemma_complete();
            self.lemma_complete();
        }
        Ok(())
    }
}

} // verus!
