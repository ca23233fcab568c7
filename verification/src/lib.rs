//! An embedded, single-file, ordered key-value store.
//!
//! The engine is a B-tree whose nodes are slotted pages, cached by a pinning
//! buffer pool over a page-granular disk manager. Every layer states its
//! behaviour as a contract over a mathematical model: byte sequences for the
//! codecs, a sequence of cells for a page, and a map from keys to values for
//! the tree.
//!
//! The engine does not touch the file itself. A database is opened from
//! the image of its file (`Db::open`) and queues what is to be written and
//! made durable; who owns the file takes the queue (`Db::take_actions`)
//! and performs it. What the file then holds is what the engine holds:
//! `laws::law_reopen` says so for a database that is opened again.
//!
//! The module `laws` states what holds across operations: of puts, gets
//! and deletes, of scans and cursors, of the layout of every page, and of
//! a database that is opened again.
use crate::btree::model::{at_most_put, bound_view, is_scan_of, pairs_view};
use crate::btree::tree::shows;
use crate::storage::disk_manager::{
    action_views, DiskAction, DiskActionView, DiskManager, DiskManagerImpl, pages_of_image,
};
use crate::storage::file_header::FileHeader;
use crate::types::{MAX_KEY_SIZE, MAX_VALUE_SIZE};
use vstd::prelude::*;

pub mod btree;
pub mod buffer;
pub mod error;
pub mod laws;
pub mod page;
pub mod storage;
pub mod types;

pub use crate::btree::tree::{BTree, TreeNode};
pub use crate::buffer::pool::BufferPoolImpl;
pub use crate::error::StorageError;
pub use crate::types::BTreeConfig;
pub use crate::types::PAGE_SIZE;
pub use crate::types::page_id::PageId;

verus! {

/// Database configuration.
#[derive(Debug, Clone)]
pub struct Config {
    /// Path to the database file.
    pub path: String,
    /// Buffer pool size in number of pages (default: 1000).
    pub buffer_pool_size: usize,
    /// Whether to sync writes immediately (default: false).
    pub sync_on_write: bool,
    /// Node limits asked for.
    pub btree_config: BTreeConfig,
}

impl Config {
    /// Create a new configuration with default settings: a buffer pool of
    /// 1000 pages, no sync on write.
    pub fn new(path: &str) -> (r: Self)
        ensures
            r.path@ == path@,
            r.buffer_pool_size == 1000,
            !r.sync_on_write,
            r.btree_config.max_leaf_keys == crate::types::DEFAULT_MAX_LEAF_KEYS,
            r.btree_config.max_interior_keys == crate::types::DEFAULT_MAX_INTERIOR_KEYS,
    {
        Config {
            path: path.to_owned(),
            buffer_pool_size: 1000,
            sync_on_write: false,
            btree_config: BTreeConfig::default(),
        }
    }

    /// Set buffer pool size.
    pub fn buffer_pool_size(self, size: usize) -> (r: Self)
        ensures
            r == (Config { buffer_pool_size: size, ..self }),
    {
        Config { buffer_pool_size: size, ..self }
    }

    /// Enable sync on write for durability.
    pub fn sync_on_write(self, enabled: bool) -> (r: Self)
        ensures
            r == (Config { sync_on_write: enabled, ..self }),
    {
        Config { sync_on_write: enabled, ..self }
    }

    /// Set the node limits asked for.
    pub fn btree_config(self, config: BTreeConfig) -> (r: Self)
        ensures
            r == (Config { btree_config: config, ..self }),
    {
        Config { btree_config: config, ..self }
    }
}

/// Database statistics.
#[derive(Debug, Clone)]
pub struct DbStats {
    /// Total number of pages in the database.
    pub page_count: usize,
    /// Buffer pool capacity.
    pub buffer_pool_size: usize,
    /// Height of the tree.
    pub tree_height: usize,
}

/// Main database handle: an ordered key-value store backed by a tree
/// over a buffer pool over a disk manager.
pub struct Db<D: DiskManager> {
    btree: BTree<D>,
    config: Config,
}

impl<D: DiskManager> View for Db<D> {
    type V = Map<Seq<u8>, Seq<u8>>;

    /// The content of the database: a map from keys to values.
    open spec fn view(&self) -> Map<Seq<u8>, Seq<u8>> {
        self.tree()@
    }
}

impl<D: DiskManager> Db<D> {
    /// The tree of the database.
    pub closed spec fn tree(&self) -> BTree<D> {
        self.btree
    }

    /// The configuration that the database was opened with.
    pub closed spec fn spec_config(&self) -> Config {
        self.config
    }

    /// The handle is well formed.
    pub open spec fn wf(&self) -> bool {
        self.tree().wf()
    }

    /// The database is sound: its tree is.
    pub open spec fn inv(&self) -> bool {
        self.tree().inv()
    }

    /// Open a database over a disk manager: the buffer pool has the size
    /// that the configuration names, and the tree is the one that the
    /// file header names. A database without root is sound and empty.
    pub fn with_disk_manager(disk_manager: D, config: Config) -> (r: Result<Self, StorageError>)
        requires
            disk_manager.inv(),
        ensures
            match r {
                Ok(db) => {
                    &&& db.wf()
                    &&& db.spec_config() == config
                    &&& db.tree().pool().disk() == disk_manager
                    &&& db.tree().pool().store() == disk_manager.pages()
                    &&& db.tree().pool().capacity_view() == config.buffer_pool_size
                    &&& db.tree().root() == disk_manager.header_view().root_page
                    &&& db.tree().spec_height() == disk_manager.header_view().tree_height
                    &&& disk_manager.header_view().root_page.0 == 0
                        && disk_manager.header_view().tree_height == 0
                        && crate::btree::model::free_distinct(disk_manager.free_pages())
                        ==> db.inv() && db@ == Map::<Seq<u8>, Seq<u8>>::empty()
                },
                Err(_) => false,
            },
    {
        let buffer_pool = BufferPoolImpl::new(disk_manager, config.buffer_pool_size);
        proof {
            assert forall|k: u32| buffer_pool.pins(k) == 0 by {
                buffer_pool.lemma_store(k);
            }
        }
        match BTree::new(buffer_pool) {
            Ok(btree) => Ok(Db { btree, config }),
            Err(e) => Err(e),
        }
    }

    /// Get the node limits that the configuration asks for.
    pub fn btree_config(&self) -> (r: BTreeConfig)
        ensures
            r.max_leaf_keys == self.spec_config().btree_config.max_leaf_keys,
            r.max_interior_keys == self.spec_config().btree_config.max_interior_keys,
    {
        BTreeConfig {
            max_leaf_keys: self.config.btree_config.max_leaf_keys,
            max_interior_keys: self.config.btree_config.max_interior_keys,
        }
    }

    /// Get a value by key.
    ///
    /// Returns `None` if the key does not exist.
    pub fn get(&mut self, key: &[u8]) -> (r: Result<Option<Vec<u8>>, StorageError>)
        requires
            old(self).wf(),
        ensures
            final(self).wf(),
            final(self).tree().keeps_means_of(&old(self).tree()),
            final(self).spec_config() == old(self).spec_config(),
            final(self).tree().same_tree(&old(self).tree()),
            old(self).inv() ==> final(self).inv() && final(self)@ == old(self)@,
            old(self).inv() ==> match r {
                Ok(value) => match value {
                    Some(bytes) => old(self)@.contains_key(key@) && old(self)@[key@] == bytes@,
                    None => !old(self)@.contains_key(key@),
                },
                Err(e) => old(self).tree().excuses(e) && old(self).tree().root().0 != 0,
            },
    {
        self.btree.get(key)
    }

    /// Insert or update a key-value pair.
    ///
    /// A key or value beyond its limit is rejected and nothing changes.
    /// A put into a sound database fails only for what is not of the
    /// tree's making (see [`BTree::excuses`]), or as an operation that
    /// cannot be done; a full page is never reported as such. The first
    /// put into an empty database that can grow succeeds, and so does a
    /// put that needs no new page (see [`BTree::fits`]) or that goes in
    /// by splits that have room (see [`BTree::splits`]). Root and height
    /// stay where the pair needs no new page; a new root is as
    /// [`BTree::new_root_over`] says. A put that fails
    /// leaves a sound database that holds nothing that it did not hold,
    /// but possibly the new value.
    pub fn put(&mut self, key: &[u8], value: &[u8]) -> (r: Result<(), StorageError>)
        requires
            old(self).wf(),
        ensures
            final(self).wf(),
            final(self).tree().keeps_means_of(&old(self).tree()),
            final(self).spec_config() == old(self).spec_config(),
            final(self).tree().spec_height() == old(self).tree().spec_height()
                || final(self).tree().spec_height() == old(self).tree().spec_height() + 1,
            match r {
                Ok(()) => {
                    &&& key@.len() <= MAX_KEY_SIZE
                    &&& value@.len() <= MAX_VALUE_SIZE
                    &&& old(self).inv() ==> final(self).inv()
                        && final(self)@ == old(self)@.insert(key@, value@)
                    &&& old(self).inv() ==> (final(self).tree().spec_height() == old(self).tree().spec_height() <==> final(self).tree().root() == old(self).tree().root())
                    &&& old(self).inv() && old(self).tree().fits(key@, value@) ==> final(self).tree().root() == old(self).tree().root()
                    &&& old(self).inv() && final(self).tree().root() != old(self).tree().root()
                        ==> final(self).tree().new_root_over(&old(self).tree(), key@, value@)
                },
                Err(StorageError::KeyTooLarge { size, max }) => {
                    &&& key@.len() > MAX_KEY_SIZE
                    &&& size == key@.len()
                    &&& max == MAX_KEY_SIZE
                    &&& final(self).tree().same_tree(&old(self).tree())
                },
                Err(StorageError::ValueTooLarge { size, max }) => {
                    &&& key@.len() <= MAX_KEY_SIZE
                    &&& value@.len() > MAX_VALUE_SIZE
                    &&& size == value@.len()
                    &&& max == MAX_VALUE_SIZE
                    &&& final(self).tree().same_tree(&old(self).tree())
                },
                Err(e) => {
                    &&& key@.len() <= MAX_KEY_SIZE
                    &&& value@.len() <= MAX_VALUE_SIZE
                    &&& !(e is PageFull)
                    &&& old(self).inv() ==> old(self).tree().excuses(e) || e is InvalidOperation
                    &&& old(self).inv() ==> final(self).inv() && at_most_put(
                        final(self)@,
                        old(self)@,
                        key@,
                        value@,
                    )
                    &&& !(old(self).inv() && old(self).tree().root().0 == 0
                        && old(self).tree().can_grow())
                    &&& !(old(self).inv() && old(self).tree().able()
                        && old(self).tree().fits(key@, value@))
                    &&& !(old(self).inv() && old(self).tree().able()
                        && old(self).tree().splits(key@, value@))
                },
            },
    {
        self.btree.put(key, value)
    }

    /// Delete a key-value pair.
    ///
    /// Returns `true` if the key existed and was deleted.
    pub fn delete(&mut self, key: &[u8]) -> (r: Result<bool, StorageError>)
        requires
            old(self).wf(),
        ensures
            final(self).wf(),
            final(self).tree().keeps_means_of(&old(self).tree()),
            final(self).spec_config() == old(self).spec_config(),
            final(self).tree().root() == old(self).tree().root(),
            final(self).tree().spec_height() == old(self).tree().spec_height(),
            old(self).inv() ==> final(self).inv() && match r {
                Ok(found) => found == old(self)@.contains_key(key@)
                    && final(self)@ == old(self)@.remove(key@),
                Err(e) => old(self).tree().excuses(e) && old(self).tree().root().0 != 0
                    && final(self)@ == old(self)@,
            },
    {
        self.btree.delete(key)
    }

    /// Check if a key exists.
    pub fn contains(&mut self, key: &[u8]) -> (r: Result<bool, StorageError>)
        requires
            old(self).wf(),
        ensures
            final(self).wf(),
            final(self).tree().keeps_means_of(&old(self).tree()),
            final(self).spec_config() == old(self).spec_config(),
            final(self).tree().same_tree(&old(self).tree()),
            old(self).inv() ==> final(self).inv() && final(self)@ == old(self)@,
            old(self).inv() ==> match r {
                Ok(found) => found == old(self)@.contains_key(key@),
                Err(e) => old(self).tree().excuses(e) && old(self).tree().root().0 != 0,
            },
    {
        match self.btree.get(key) {
            Ok(value) => Ok(value.is_some()),
            Err(e) => Err(e),
        }
    }

    /// All key-value pairs, in ascending order of the keys.
    pub fn iter(&mut self) -> (r: Result<Vec<(Vec<u8>, Vec<u8>)>, StorageError>)
        requires
            old(self).wf(),
        ensures
            final(self).wf(),
            final(self).tree().keeps_means_of(&old(self).tree()),
            final(self).spec_config() == old(self).spec_config(),
            final(self).tree().same_tree(&old(self).tree()),
            old(self).inv() ==> final(self).inv() && final(self)@ == old(self)@,
            old(self).inv() ==> match r {
                Ok(pairs) => is_scan_of(pairs_view(pairs@), old(self)@, None, None),
                Err(e) => old(self).tree().excuses(e) && old(self).tree().root().0 != 0,
            },
    {
        self.btree.scan(None, None)
    }

    /// The key-value pairs with start <= key < end, in ascending order
    /// of the keys. A bound that is absent does not bound.
    pub fn range(&mut self, start: Option<&[u8]>, end: Option<&[u8]>) -> (r: Result<
        Vec<(Vec<u8>, Vec<u8>)>,
        StorageError,
    >)
        requires
            old(self).wf(),
        ensures
            final(self).wf(),
            final(self).tree().keeps_means_of(&old(self).tree()),
            final(self).spec_config() == old(self).spec_config(),
            final(self).tree().same_tree(&old(self).tree()),
            old(self).inv() ==> final(self).inv() && final(self)@ == old(self)@,
            old(self).inv() ==> match r {
                Ok(pairs) => is_scan_of(
                    pairs_view(pairs@),
                    old(self)@,
                    bound_view(start),
                    bound_view(end),
                ),
                Err(e) => old(self).tree().excuses(e) && old(self).tree().root().0 != 0,
            },
    {
        self.btree.scan(start, end)
    }

    /// Trace a key lookup: one line of text for every step of the
    /// lookup, from the root to the leaf.
    pub fn debug_get(&mut self, key: &[u8]) -> (r: Result<Vec<String>, StorageError>)
        requires
            old(self).wf(),
        ensures
            final(self).wf(),
            final(self).tree().keeps_means_of(&old(self).tree()),
            final(self).spec_config() == old(self).spec_config(),
            final(self).tree().same_tree(&old(self).tree()),
            old(self).inv() ==> final(self).inv() && final(self)@ == old(self)@,
            old(self).inv() ==> match r {
                Ok(lines) => {
                    let steps = crate::btree::trace::tree_trace(
                        old(self).tree().pool().store(),
                        old(self).tree().root().0,
                        old(self).tree().spec_height() as nat,
                        key@,
                    );
                    &&& lines@.len() == steps.len()
                    &&& forall|i: int|
                        0 <= i < lines@.len() ==> (#[trigger] lines@[i])@
                            == crate::btree::trace::rendered(steps[i])
                },
                Err(e) => old(self).tree().excuses(e) && old(self).tree().root().0 != 0,
            },
    {
        self.btree.debug_get(key)
    }

    /// Export the tree structure for showing it: the node of the root,
    /// or nothing for an empty database.
    pub fn export_tree(&mut self) -> (r: Result<Option<TreeNode>, StorageError>)
        requires
            old(self).wf(),
        ensures
            final(self).wf(),
            final(self).tree().keeps_means_of(&old(self).tree()),
            final(self).spec_config() == old(self).spec_config(),
            final(self).tree().same_tree(&old(self).tree()),
            old(self).inv() ==> final(self).inv() && final(self)@ == old(self)@,
            old(self).inv() ==> match r {
                Ok(None) => old(self).tree().root().0 == 0,
                Ok(Some(node)) => old(self).tree().root().0 != 0 && shows(
                    node,
                    old(self).tree().pool().store(),
                    old(self).tree().root().0,
                    old(self).tree().spec_height() as nat,
                ),
                Err(e) => old(self).tree().excuses(e) && old(self).tree().root().0 != 0,
            },
    {
        self.btree.export_tree()
    }

    /// Flush all dirty pages to disk, and make the file durable.
    pub fn flush(&mut self) -> (r: Result<(), StorageError>)
        requires
            old(self).wf(),
        ensures
            final(self).wf(),
            final(self).tree().keeps_means_of(&old(self).tree()),
            final(self).spec_config() == old(self).spec_config(),
            final(self).tree().same_tree(&old(self).tree()),
            old(self).inv() ==> final(self).inv() && final(self)@ == old(self)@,
            r is Ok ==> final(self).tree().pool().disk().durable(),
            r is Ok ==> forall|k: u32| !final(self).tree().pool().is_dirty(k),
            r is Err ==> (r matches Err(StorageError::Io(_)))
                && !old(self).tree().pool().disk().dependable(),
    {
        self.btree.flush()
    }

    /// Get statistics about the database: the number of pages of the
    /// file, the capacity of the buffer pool, the height of the tree.
    pub fn stats(&self) -> (r: DbStats)
        requires
            self.wf(),
        ensures
            r.page_count == self.tree().pool().disk().header_view().page_count,
            r.buffer_pool_size == self.tree().pool().capacity_view(),
            r.tree_height == self.tree().spec_height(),
    {
        DbStats {
            page_count: self.btree.buffer_pool().page_count(),
            buffer_pool_size: self.btree.buffer_pool().capacity(),
            tree_height: self.btree.height(),
        }
    }
}

impl Db<DiskManagerImpl> {
    /// The database is as it comes from opening the file image `image`:
    /// no page is resident, pinned or free. Where the image holds a
    /// header page, header and pages are read from it, and nothing is
    /// pending. Else the database is sound and empty, and its header is
    /// to be written and made durable.
    pub open spec fn opened_from(&self, image: Seq<u8>) -> bool {
        let disk = self.tree().pool().disk();
        &&& self.wf()
        &&& self.tree().root() == disk.header_view().root_page
        &&& self.tree().spec_height() == disk.header_view().tree_height
        &&& self.tree().pool().store() == disk.pages()
        &&& disk.free_pages() == Seq::<PageId>::empty()
        &&& disk.base() == image
        &&& if image.len() >= crate::types::PAGE_SIZE {
            &&& crate::storage::file_header::spec_read(
                image.subrange(0, crate::types::PAGE_SIZE as int),
            ) == Some(disk.header_view())
            &&& disk.pages() == pages_of_image(image, disk.header_view().page_count)
            &&& disk.pending() == Seq::<DiskActionView>::empty()
        } else {
            &&& self.inv()
            &&& self@ == Map::<Seq<u8>, Seq<u8>>::empty()
            &&& self.tree().root().0 == 0
            &&& disk.dependable()
            &&& disk.header_view() == FileHeader::new()
            &&& disk.pending() == seq![
                DiskActionView::Write { offset: 0, data: FileHeader::new().image() },
                DiskActionView::SyncAll,
            ]
        }
    }

    /// Open or create a database from the image of its file.
    ///
    /// An image of less than a page stands for a new file: the database
    /// is sound and empty, and the header page is among the actions to
    /// perform on the file.
    pub fn open(image: &[u8], config: Config) -> (r: Result<Self, StorageError>)
        ensures
            match r {
                Ok(db) => {
                    &&& db.opened_from(image@)
                    &&& db.spec_config() == config
                    &&& db.tree().pool().capacity_view() == config.buffer_pool_size
                    &&& db.tree().pool().disk().syncs_on_write() == config.sync_on_write
                },
                Err(StorageError::InvalidDatabaseFile(_)) => {
                    &&& image@.len() >= crate::types::PAGE_SIZE
                    &&& crate::storage::file_header::spec_read(
                        image@.subrange(0, crate::types::PAGE_SIZE as int),
                    ) is None
                },
                Err(_) => false,
            },
    {
        let disk_manager = match DiskManagerImpl::open(image, config.sync_on_write) {
            Ok(disk_manager) => disk_manager,
            Err(e) => {
                return Err(e);
            },
        };
        Db::with_disk_manager(disk_manager, config)
    }

    /// Hand out the actions that are still to be performed on the file,
    /// in order. None is left pending.
    pub fn take_actions(&mut self) -> (r: Vec<DiskAction>)
        requires
            old(self).wf(),
        ensures
            final(self).wf(),
            final(self).tree().keeps_means_of(&old(self).tree()),
            final(self).spec_config() == old(self).spec_config(),
            final(self).tree().same_tree(&old(self).tree()),
            old(self).inv() ==> final(self).inv() && final(self)@ == old(self)@,
            action_views(r@) == old(self).tree().pool().disk().pending(),
            final(self).tree().pool().disk().pending() == Seq::<DiskActionView>::empty(),
            final(self).tree().pool().disk().base() == old(self).tree().pool().disk().file(),
            final(self).tree().pool().disk().file() == old(self).tree().pool().disk().file(),
            final(self).tree().pool().disk().durable() == old(self).tree().pool().disk().durable(),
            forall|k: u32|
                final(self).tree().pool().is_dirty(k) == old(self).tree().pool().is_dirty(k),
    {
        self.btree.take_actions()
    }
}

} // verus!
