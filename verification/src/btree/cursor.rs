//! Cursor over the entries of a tree.
//!
//! A cursor stands at an entry of the tree, or past the last one. It holds
//! the entry at which it stands, and finds the next one by a descent from
//! the root: what is put or deleted between two steps does not unsettle
//! it, and it holds no page in the pool.
use crate::btree::model::{Entry, entry_view, is_first};
use crate::btree::tree::BTree;
use crate::error::StorageError;
use crate::storage::disk_manager::DiskManager;
use vstd::prelude::*;
use vstd::slice::slice_to_vec;

verus! {

/// A cursor for iterating over the entries of a tree in key order.
pub struct Cursor {
    /// The entry at which the cursor stands, if it stands at one.
    entry: Option<(Vec<u8>, Vec<u8>)>,
}

impl Cursor {
    /// The entry at which the cursor stands; none past the last entry.
    pub closed spec fn at(&self) -> Entry {
        entry_view(self.entry)
    }

    /// Create a cursor at the first entry of the tree.
    pub fn new<D: DiskManager>(tree: &mut BTree<D>) -> (r: Result<Self, StorageError>)
        requires
            old(tree).wf(),
        ensures
            final(tree).wf(),
            final(tree).keeps_means_of(old(tree)),
            final(tree).same_tree(old(tree)),
            old(tree).inv() ==> final(tree).inv() && final(tree)@ == old(tree)@,
            old(tree).inv() ==> match r {
                Ok(cursor) => is_first(cursor.at(), old(tree)@, None, false),
                Err(e) => old(tree).excuses(e) && old(tree).root().0 != 0,
            },
    {
        match tree.seek(None, false) {
            Ok(entry) => Ok(Cursor { entry }),
            Err(e) => Err(e),
        }
    }

    /// Create a cursor at the first entry whose key is `key` or sorts
    /// after it.
    pub fn seek<D: DiskManager>(tree: &mut BTree<D>, key: &[u8]) -> (r: Result<Self, StorageError>)
        requires
            old(tree).wf(),
        ensures
            final(tree).wf(),
            final(tree).keeps_means_of(old(tree)),
            final(tree).same_tree(old(tree)),
            old(tree).inv() ==> final(tree).inv() && final(tree)@ == old(tree)@,
            old(tree).inv() ==> match r {
                Ok(cursor) => is_first(cursor.at(), old(tree)@, Some(key@), false),
                Err(e) => old(tree).excuses(e) && old(tree).root().0 != 0,
            },
    {
        match tree.seek(Some(key), false) {
            Ok(entry) => Ok(Cursor { entry }),
            Err(e) => Err(e),
        }
    }

    /// Check if the cursor stands at an entry.
    pub fn is_valid(&self) -> (r: bool)
        ensures
            r == (self.at() is Some),
    {
        self.entry.is_some()
    }

    /// Get the key and the value at which the cursor stands.
    pub fn current(&self) -> (r: Option<(Vec<u8>, Vec<u8>)>)
        ensures
            entry_view(r) == self.at(),
    {
        match &self.entry {
            Some(entry) => Some((slice_to_vec(entry.0.as_slice()), slice_to_vec(entry.1.as_slice()))),
            None => None,
        }
    }

    /// Move to the next entry: the first one of the tree whose key sorts
    /// after the key at which the cursor stands. Returns whether there is
    /// one; past the last entry the cursor stays where it is, and so it
    /// does where the step fails.
    pub fn next<D: DiskManager>(&mut self, tree: &mut BTree<D>) -> (r: Result<bool, StorageError>)
        requires
            old(tree).wf(),
        ensures
            final(tree).wf(),
            final(tree).keeps_means_of(old(tree)),
            final(tree).same_tree(old(tree)),
            old(tree).inv() ==> final(tree).inv() && final(tree)@ == old(tree)@,
            old(self).at() is None ==> (r matches Ok(false)) && final(self).at() is None,
            r is Err ==> final(self).at() == old(self).at(),
            r matches Ok(moved) ==> (moved == (final(self).at() is Some)),
            old(tree).inv() ==> (old(self).at() matches Some(entry) ==> match r {
                Ok(_) => is_first(final(self).at(), old(tree)@, Some(entry.0), true),
                Err(e) => old(tree).excuses(e) && old(tree).root().0 != 0,
            }),
    {
        let found = match &self.entry {
            Some(entry) => tree.seek(Some(entry.0.as_slice()), true),
            None => {
                return Ok(false);
            },
        };
        match found {
            Ok(entry) => {
                let moved = entry.is_some();
                self.entry = entry;
                Ok(moved)
            },
            Err(e) => Err(e),
        }
    }
}

} // verus!
