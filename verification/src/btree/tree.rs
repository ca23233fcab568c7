//! B-tree core implementation.
//!
//! A tree is either empty (no root, height 0) or has a root page and a
//! height of at least 1. All leaves lie at the depth that the height
//! names. An interior page with separators `k1 < ... < kn` sends the keys
//! below `k1` to the child of its header and the keys from `ki` up to the
//! next separator to the child of cell `i`.
use crate::btree::model::{
    above, admits, at_most_put, below, Bound, bound_view, child_hi, child_lo, child_of, entry_view,
    first_in_subtree, free_distinct, fresh_root_takes, grown_from, grows, has_room, in_children,
    in_range, in_subtree, insert_failed, inserted_plain, inserted_split, interior_split_takes,
    is_allocated, is_first, is_scan_of, is_split_of, leaf_get, leaf_split_takes, leaf_way,
    lemma_allocation, lemma_child_updated, lemma_first_in_tree, lemma_get_in_bounds,
    lemma_interior_fits, lemma_interior_plain, lemma_interior_split, lemma_leaf_get_at,
    lemma_leaf_get_insert, lemma_leaf_get_remove, lemma_leaf_get_update, lemma_leaf_split_commit,
    lemma_lists_extend, lemma_lists_skip, lemma_lists_tree, lemma_root_split, lemma_route,
    lemma_route_is, lemma_separator_position, lemma_subtree_children, lists_slots, lists_subtree,
    not_in_use, option_view, page_at, pairs_sorted, pairs_view, put_partial, put_result,
    same_outside, separator_fits, split_key, Store, subtree_get, subtree_wf, tree_map, way_in,
    with_separator,
};
use crate::btree::trace::{
    interior_cell_steps, leaf_cell_steps, leaf_outcome, rendered, step_views, subtree_trace,
    TraceStep, TraceStepView, tree_trace,
};
use crate::buffer::pool::BufferPoolImpl;
use crate::error::StorageError;
use crate::page::cell::{Cell, CellType, interior_view, leaf_view, spec_encode_leaf};
use crate::page::slotted::{
    child_for, child_slot, image_tidy, keys_sorted, lemma_child_slot, PageView, SlottedPage,
};
use crate::storage::disk_manager::{
    action_views, DiskAction, DiskActionView, DiskManager, DiskManagerImpl,
};
use crate::storage::file_header::FileHeader;
use crate::types::{MAX_KEY_SIZE, MAX_VALUE_SIZE, PageType};
use crate::types::key_order::{
    key_le, key_less, key_lt, lemma_key_le_lt, lemma_key_lt_le, lemma_key_lt_transitive,
    lemma_key_trichotomy,
};
use crate::types::page_id::PageId;
use vstd::prelude::*;
use vstd::slice::slice_to_vec;

verus! {

/// A node of the tree as it is shown: the page, what kind it is, its keys
/// and values as text, and the nodes of its children.
#[derive(Debug)]
pub struct TreeNode {
    /// Page ID.
    pub page_id: u32,
    /// Whether this is a leaf node.
    pub is_leaf: bool,
    /// Keys in this node.
    pub keys: Vec<String>,
    /// Values (only for leaf nodes).
    pub values: Vec<String>,
    /// Child nodes (only for interior nodes).
    pub children: Vec<TreeNode>,
}

/// The node shows the subtree of page `id`, whose leaves lie `h` levels
/// down: its keys are those of the page, as text; a leaf shows its
/// values and no children; an interior page shows no values and, in
/// order, the nodes of the child of its header and of the children of its
/// cells.
pub open spec fn shows(node: TreeNode, s: Store, id: u32, h: nat) -> bool
    decreases h,
{
    let v = page_at(s, id);
    &&& h >= 1
    &&& node.page_id == id
    &&& node.is_leaf == (h == 1)
    &&& node.keys@.len() == v.cells.len()
    &&& forall|i: int|
        0 <= i < v.cells.len() ==> (#[trigger] node.keys@[i])@ == crate::types::text::utf8_lossy(
            v.cells[i].key,
        )
    &&& if h == 1 {
        &&& node.children@.len() == 0
        &&& node.values@.len() == v.cells.len()
        &&& forall|i: int|
            0 <= i < v.cells.len() ==> (#[trigger] node.values@[i])@
                == crate::types::text::utf8_lossy(v.cells[i].value)
    } else {
        &&& node.values@.len() == 0
        &&& node.children@.len() == v.cells.len() + 1
        &&& forall|j: int|
            0 <= j <= v.cells.len() ==> shows(
                #[trigger] node.children@[j],
                s,
                child_of(v, j),
                (h - 1) as nat,
            )
    }
}

/// A disk-based B-tree.
pub struct BTree<D: DiskManager> {
    /// Buffer pool for page access.
    buffer_pool: BufferPoolImpl<D>,
    /// Root page ID (0 means empty tree).
    root_page: PageId,
    /// Current height of the tree.
    height: usize,
}

impl<D: DiskManager> View for BTree<D> {
    type V = Map<Seq<u8>, Seq<u8>>;

    /// The tree as a map from keys to values.
    open spec fn view(&self) -> Map<Seq<u8>, Seq<u8>> {
        tree_map(self.pool().store(), self.root().0, self.spec_height() as nat)
    }
}

impl<D: DiskManager> BTree<D> {
    /// The buffer pool under the tree.
    pub closed spec fn pool(&self) -> BufferPoolImpl<D> {
        self.buffer_pool
    }

    /// The root page, 0 while the tree is empty.
    pub closed spec fn root(&self) -> PageId {
        self.root_page
    }

    /// The height of the tree, 0 while it is empty.
    pub closed spec fn spec_height(&self) -> usize {
        self.height
    }

    /// The handle is well formed: the pool is, and no page is pinned.
    pub open spec fn wf(&self) -> bool {
        &&& self.pool().inv()
        &&& forall|k: u32| self.pool().pins(k) == 0
    }

    /// The tree is sound: the handle mirrors the file header; no page is
    /// on the free list twice; a tree without root has height 0; else
    /// the root is the root of a well-formed subtree of the height of the
    /// tree, without bounds on its keys, all of whose pages are in use
    /// and laid out tidily (no two cells share a byte, and the header
    /// accounts for every byte of the content area).
    pub open spec fn inv(&self) -> bool {
        &&& self.wf()
        &&& self.pool().disk().header_view().root_page == self.root()
        &&& self.pool().disk().header_view().tree_height == self.spec_height()
        &&& free_distinct(self.pool().disk().free_pages())
        &&& if self.root().0 == 0 {
            self.spec_height() == 0
        } else {
            &&& subtree_wf(
                self.pool().store(),
                self.root().0,
                self.spec_height() as nat,
                None,
                None,
            )
            &&& self.pages_in_use(self.root().0, self.spec_height() as nat)
        }
    }

    /// What an insertion under `key` into the subtree of `id` starts
    /// from: the subtree is well formed, made of tidy pages in use, and
    /// takes the key within its bounds; no page is on the free list twice.
    pub open spec fn insert_pre(&self, id: u32, h: nat, lo: Bound, hi: Bound, key: Seq<u8>) -> bool {
        &&& subtree_wf(self.pool().store(), id, h, lo, hi)
        &&& self.pages_in_use(id, h)
        &&& above(lo, key)
        &&& below(key, hi)
        &&& free_distinct(self.pool().disk().free_pages())
    }

    /// What an insertion into the subtree of `id` leaves, seen from the
    /// store `s`, the header `h0` and the free list `f0` that it started
    /// from: the subtree holds what it held, with `value` under `key`,
    /// either as it stands or split in two at a separator, with a page
    /// that was not in use for the upper half.
    pub open spec fn insert_post(
        &self,
        s: Store,
        h0: FileHeader,
        f0: Seq<PageId>,
        id: u32,
        h: nat,
        lo: Bound,
        hi: Bound,
        key: Seq<u8>,
        value: Seq<u8>,
        res: Option<(Vec<u8>, PageId)>,
    ) -> bool {
        &&& grows(h0, f0, self.pool().disk().header_view(), self.pool().disk().free_pages())
        &&& self.pages_in_use(id, h)
        &&& match res {
            None => inserted_plain(
                s,
                self.pool().store(),
                id,
                h,
                lo,
                hi,
                key,
                value,
                not_in_use(h0.page_count, f0),
            ),
            Some((separator, new_id)) => {
                &&& inserted_split(
                    s,
                    self.pool().store(),
                    id,
                    h,
                    lo,
                    hi,
                    key,
                    value,
                    separator@,
                    new_id.0,
                    not_in_use(h0.page_count, f0),
                )
                &&& self.pages_in_use(new_id.0, h)
                &&& not_in_use(h0.page_count, f0).contains(new_id.0)
            },
        }
    }

    /// The working copy `page` of the leaf `id` is ready to take `cell`,
    /// whose key it does not hold: its keys lie within the bounds, and
    /// with the cell it holds what the leaf is to hold.
    pub open spec fn leaf_ready(
        &self,
        page: SlottedPage,
        cell: Cell,
        id: u32,
        lo: Bound,
        hi: Bound,
    ) -> bool {
        &&& self.insert_pre(id, 1, lo, hi, cell.key@)
        &&& page@.page_type.spec_is_leaf()
        &&& page.tidy()
        &&& cell.cell_type == CellType::Leaf
        &&& forall|i: int| 0 <= i < page@.cells.len()
            ==> (#[trigger] page@.cells[i]).key != cell.key@
        &&& forall|i: int|
            0 <= i < page@.cells.len() ==> above(lo, (#[trigger] page@.cells[i]).key) && below(
                page@.cells[i].key,
                hi,
            )
        &&& forall|k: Seq<u8>|
            #![trigger leaf_get(page@.cells, k)]
            put_result(k, cell.key@, cell.value@, leaf_get(page@.cells, k)) == put_result(
                k,
                cell.key@,
                cell.value@,
                subtree_get(self.pool().store(), id, 1, k),
            )
    }

    /// The interior page `id`, whose copy is `page`, is ready to take the
    /// separator `sep` and the page `new_id`: seen from the store `s`,
    /// the header `h0` and the free list `f0` that the insertion started
    /// from, the child of `id` under `key` was split by the insertion,
    /// and nothing else has changed.
    pub open spec fn interior_ready(
        &self,
        page: SlottedPage,
        s: Store,
        h0: FileHeader,
        f0: Seq<PageId>,
        id: u32,
        h: nat,
        lo: Bound,
        hi: Bound,
        key: Seq<u8>,
        value: Seq<u8>,
        sep: Seq<u8>,
        new_id: u32,
    ) -> bool {
        let v = page_at(s, id);
        let j = child_slot(v.cells, key) as int;
        &&& h >= 2
        &&& subtree_wf(s, id, h, lo, hi)
        &&& forall|x: u32| #[trigger]
            in_subtree(s, id, h, x) ==> is_allocated(h0.page_count, f0, x) && image_tidy(s[x])
        &&& grows(h0, f0, self.pool().disk().header_view(), self.pool().disk().free_pages())
        &&& inserted_split(
            s,
            self.pool().store(),
            child_for(v, key).0,
            (h - 1) as nat,
            child_lo(v, j, lo),
            child_hi(v, j, hi),
            key,
            value,
            sep,
            new_id,
            not_in_use(h0.page_count, f0),
        )
        &&& self.pages_in_use(child_for(v, key).0, (h - 1) as nat)
        &&& self.pages_in_use(new_id, (h - 1) as nat)
        &&& not_in_use(h0.page_count, f0).contains(new_id)
        &&& self.pool().store().contains_key(id)
        &&& page.image() == self.pool().store()[id]
    }

    /// The tree is as `other` is: same root, height, store, header and
    /// free list.
    pub open spec fn same_tree(&self, other: &Self) -> bool {
        &&& self.root() == other.root()
        &&& self.spec_height() == other.spec_height()
        &&& self.pool().store() == other.pool().store()
        &&& self.pool().disk().header_view() == other.pool().disk().header_view()
        &&& self.pool().disk().free_pages() == other.pool().disk().free_pages()
    }

    /// What an insertion into the subtree of `id` leaves where it fails,
    /// seen from the store `s`, the header `h0` and the free list `f0`
    /// that it started from: a well-formed subtree of pages in use that
    /// holds nothing that it did not hold, but for the new value.
    pub open spec fn insert_fail_post(
        &self,
        s: Store,
        h0: FileHeader,
        f0: Seq<PageId>,
        id: u32,
        h: nat,
        lo: Bound,
        hi: Bound,
        key: Seq<u8>,
        value: Seq<u8>,
    ) -> bool {
        &&& grows(h0, f0, self.pool().disk().header_view(), self.pool().disk().free_pages())
        &&& self.pages_in_use(id, h)
        &&& insert_failed(
            s,
            self.pool().store(),
            id,
            h,
            lo,
            hi,
            key,
            value,
            not_in_use(h0.page_count, f0),
        )
    }

    /// Nothing was written since `before` but, at most, in an attempt at
    /// a new page.
    pub open spec fn quiet_since(&self, before: &Self) -> bool {
        self.pool().after_attempt_from(&before.pool()) || (self.pool().store()
            == before.pool().store() && self.pool().disk().header_view()
            == before.pool().disk().header_view() && self.pool().disk().free_pages()
            == before.pool().disk().free_pages())
    }

    /// What holds of a failed insertion at one moment holds once an
    /// attempt at a new page has followed, and nothing else.
    proof fn lemma_fail_post_kept(
        &self,
        entry: &Self,
        s: Store,
        h0: FileHeader,
        f0: Seq<PageId>,
        id: u32,
        h: nat,
        lo: Bound,
        hi: Bound,
        key: Seq<u8>,
        value: Seq<u8>,
    )
        requires
            entry.insert_fail_post(s, h0, f0, id, h, lo, hi, key, value),
            self.quiet_since(entry),
        ensures
            self.insert_fail_post(s, h0, f0, id, h, lo, hi, key, value),
    {
        let t = entry.pool().store();
        let u = self.pool().store();
        let he = entry.pool().disk().header_view();
        let fe = entry.pool().disk().free_pages();
        let h1 = self.pool().disk().header_view();
        let f1 = self.pool().disk().free_pages();
        let next = entry.pool().next_page();
        let fresh = not_in_use(h0.page_count, f0);
        if fe.len() > 0 {
            assert(fe.contains(fe[0]));
        }
        assert(!is_allocated(he.page_count, fe, next));
        assert forall|x: u32| #[trigger] is_allocated(he.page_count, fe, x) implies is_allocated(
            h1.page_count,
            f1,
            x,
        ) by {
            if f1.contains(PageId(x)) {
                let i = f1.index_of(PageId(x));
                if f1 != fe {
                    assert(fe[i + 1] == PageId(x));
                }
                assert(fe.contains(PageId(x)));
            }
        }
        assert(free_distinct(f1)) by {
            if f1 != fe {
                assert forall|i: int, j: int| 0 <= i < j < f1.len() implies f1[i] != f1[j] by {
                    assert(fe[i + 1] != fe[j + 1]);
                }
            }
        }
        assert forall|x: u32| #[trigger] is_allocated(h0.page_count, f0, x) implies is_allocated(
            h1.page_count,
            f1,
            x,
        ) by {
            assert(is_allocated(he.page_count, fe, x));
        }
        assert forall|x: u32| x != next implies (#[trigger] u.contains_key(x)) == t.contains_key(
            x,
        ) && (t.contains_key(x) ==> u[x] == t[x]) by {
            if u != t {
                assert(u.remove(next).contains_key(x) == u.contains_key(x));
                assert(t.remove(next).contains_key(x) == t.contains_key(x));
                if t.contains_key(x) {
                    assert(u.remove(next)[x] == u[x]);
                    assert(t.remove(next)[x] == t[x]);
                }
            }
        }
        assert forall|x: u32| #[trigger] in_subtree(t, id, h, x) implies u.contains_key(x)
            && u[x] == t[x] by {
            assert(entry.page_ok(x));
            assert(x != next);
            crate::btree::model::lemma_in_subtree_has(t, id, h, lo, hi, x);
            assert(u.contains_key(x) == t.contains_key(x));
        }
        crate::btree::model::lemma_frame(t, u, id, h, lo, hi);
        assert(same_outside(s, u, id, h, fresh)) by {
            assert forall|x: u32| !in_subtree(s, id, h, x) && !fresh.contains(x) implies (
            #[trigger] u.contains_key(x) == s.contains_key(x)) && (s.contains_key(x) ==> u[x]
                == s[x]) by {
                assert(is_allocated(h0.page_count, f0, x));
                assert(is_allocated(he.page_count, fe, x));
                assert(x != next);
                assert(t.contains_key(x) == s.contains_key(x));
                assert(u.contains_key(x) == t.contains_key(x));
            }
        }
        assert forall|x: u32| #[trigger] in_subtree(u, id, h, x) implies self.page_ok(x) by {
            assert(in_subtree(t, id, h, x));
            assert(entry.page_ok(x));
        }
        assert forall|k: Seq<u8>|
            #![trigger subtree_get(u, id, h, k)]
            put_partial(subtree_get(u, id, h, k), k, key, value, subtree_get(s, id, h, k)) by {
            assert(subtree_get(u, id, h, k) == subtree_get(t, id, h, k));
        }
    }

    /// Where an attempt at a new page is all that has happened since
    /// `before`, the subtree of `id` is as after an insertion that
    /// failed.
    proof fn lemma_nothing_written(
        &self,
        before: &Self,
        id: u32,
        h: nat,
        lo: Bound,
        hi: Bound,
        key: Seq<u8>,
        value: Seq<u8>,
    )
        requires
            before.insert_pre(id, h, lo, hi, key),
            self.quiet_since(before),
        ensures
            self.insert_fail_post(
                before.pool().store(),
                before.pool().disk().header_view(),
                before.pool().disk().free_pages(),
                id,
                h,
                lo,
                hi,
                key,
                value,
            ),
    {
        let s = before.pool().store();
        let h0 = before.pool().disk().header_view();
        let f0 = before.pool().disk().free_pages();
        assert forall|x: u32| #[trigger] in_subtree(s, id, h, x) implies s.contains_key(x) by {
            crate::btree::model::lemma_in_subtree_has(s, id, h, lo, hi, x);
        }
        crate::btree::model::lemma_failed_untouched(
            s,
            s,
            id,
            h,
            lo,
            hi,
            key,
            value,
            not_in_use(h0.page_count, f0),
        );
        self.lemma_fail_post_kept(before, s, h0, f0, id, h, lo, hi, key, value);
    }

    /// A subtree whose child for the key is as after an insertion that
    /// failed, and of which nothing else has changed, is so itself.
    proof fn lemma_child_failed(
        &self,
        before: &Self,
        id: u32,
        h: nat,
        lo: Bound,
        hi: Bound,
        key: Seq<u8>,
        value: Seq<u8>,
    )
        requires
            h >= 2,
            before.insert_pre(id, h, lo, hi, key),
            self.insert_fail_post(
                before.pool().store(),
                before.pool().disk().header_view(),
                before.pool().disk().free_pages(),
                child_for(page_at(before.pool().store(), id), key).0,
                (h - 1) as nat,
                child_lo(
                    page_at(before.pool().store(), id),
                    child_slot(page_at(before.pool().store(), id).cells, key) as int,
                    lo,
                ),
                child_hi(
                    page_at(before.pool().store(), id),
                    child_slot(page_at(before.pool().store(), id).cells, key) as int,
                    hi,
                ),
                key,
                value,
            ),
        ensures
            self.insert_fail_post(
                before.pool().store(),
                before.pool().disk().header_view(),
                before.pool().disk().free_pages(),
                id,
                h,
                lo,
                hi,
                key,
                value,
            ),
    {
        let s = before.pool().store();
        let t = self.pool().store();
        let h0 = before.pool().disk().header_view();
        let f0 = before.pool().disk().free_pages();
        let v = page_at(s, id);
        let j = child_slot(v.cells, key) as int;
        let g = (h - 1) as nat;
        let c = child_for(v, key).0;
        let fresh = not_in_use(h0.page_count, f0);
        lemma_subtree_children(s, id, h, lo, hi);
        crate::page::slotted::lemma_image_view_wf(s[id]);
        lemma_child_slot(v.cells, key);
        assert(c == child_of(v, j));
        assert forall|x: u32| #[trigger] in_subtree(s, id, h, x) implies !fresh.contains(x) by {
            assert(before.page_ok(x));
        }
        crate::btree::model::lemma_failed_child(s, t, id, h, lo, hi, key, value, fresh);
        assert forall|x: u32| #[trigger] in_subtree(t, id, h, x) implies self.page_ok(x) by {
            crate::btree::model::lemma_child_updated_page(s, t, id, h, lo, hi, j, fresh, x);
            if in_subtree(s, id, h, x) && t[x] == s[x] {
                assert(before.page_ok(x));
            } else {
                assert(in_subtree(t, c, g, x));
            }
        }
    }

    /// A tree whose root is as after an insertion that failed is sound,
    /// and holds nothing that it did not hold, but for the new value.
    proof fn lemma_failed_is_sound(
        &self,
        s: Store,
        h0: FileHeader,
        f0: Seq<PageId>,
        key: Seq<u8>,
        value: Seq<u8>,
    )
        requires
            self.wf(),
            self.root().0 != 0,
            h0.root_page == self.root(),
            h0.tree_height == self.spec_height(),
            self.insert_fail_post(
                s,
                h0,
                f0,
                self.root().0,
                self.spec_height() as nat,
                None,
                None,
                key,
                value,
            ),
        ensures
            self.inv(),
            at_most_put(self@, tree_map(s, self.root().0, self.spec_height() as nat), key, value),
    {
        let t = self.pool().store();
        let root = self.root().0;
        let h = self.spec_height() as nat;
        assert forall|k: Seq<u8>| #[trigger] self@.contains_key(k) implies (tree_map(
            s,
            root,
            h,
        ).contains_key(k) && self@[k] == tree_map(s, root, h)[k]) || (k == key && self@[k]
            == value) by {
            assert(put_partial(subtree_get(t, root, h, k), k, key, value, subtree_get(s, root, h, k)));
        }
    }

    /// The interior page `id` whose child for the key was split, and
    /// which does not know of it yet, is the root of a subtree as after
    /// an insertion that failed.
    proof fn lemma_interior_unlinked(
        &self,
        s: Store,
        h0: FileHeader,
        f0: Seq<PageId>,
        id: u32,
        h: nat,
        lo: Bound,
        hi: Bound,
        key: Seq<u8>,
        value: Seq<u8>,
        sep: Vec<u8>,
        new_id: PageId,
    )
        requires
            h >= 2,
            subtree_wf(s, id, h, lo, hi),
            forall|x: u32| #[trigger]
                in_subtree(s, id, h, x) ==> is_allocated(h0.page_count, f0, x) && image_tidy(s[x]),
            self.insert_post(
                s,
                h0,
                f0,
                child_for(page_at(s, id), key).0,
                (h - 1) as nat,
                child_lo(page_at(s, id), child_slot(page_at(s, id).cells, key) as int, lo),
                child_hi(page_at(s, id), child_slot(page_at(s, id).cells, key) as int, hi),
                key,
                value,
                Some((sep, new_id)),
            ),
        ensures
            self.insert_fail_post(s, h0, f0, id, h, lo, hi, key, value),
    {
        let t = self.pool().store();
        let v = page_at(s, id);
        let j = child_slot(v.cells, key) as int;
        let g = (h - 1) as nat;
        let c = child_for(v, key).0;
        let fresh = not_in_use(h0.page_count, f0);
        lemma_subtree_children(s, id, h, lo, hi);
        crate::page::slotted::lemma_image_view_wf(s[id]);
        lemma_child_slot(v.cells, key);
        assert(c == child_of(v, j));
        crate::btree::model::lemma_failed_split(
            s,
            t,
            c,
            g,
            child_lo(v, j, lo),
            child_hi(v, j, hi),
            key,
            value,
            sep@,
            new_id.0,
            fresh,
        );
        assert forall|x: u32| #[trigger] in_subtree(s, id, h, x) implies !fresh.contains(x) by {}
        crate::btree::model::lemma_failed_child(s, t, id, h, lo, hi, key, value, fresh);
        assert forall|x: u32| #[trigger] in_subtree(t, id, h, x) implies self.page_ok(x) by {
            crate::btree::model::lemma_child_updated_page(s, t, id, h, lo, hi, j, fresh, x);
            if in_subtree(s, id, h, x) && t[x] == s[x] {
                assert(is_allocated(h0.page_count, f0, x));
            } else {
                assert(in_subtree(t, c, g, x));
            }
        }
    }

    /// What an error says that is not of the tree's making: an I/O error
    /// comes from a disk manager that is not dependable, and the pool is
    /// exhausted only where it has no frame at all.
    pub open spec fn excuses(&self, e: StorageError) -> bool {
        match e {
            StorageError::Io(_) => !self.pool().disk().dependable(),
            StorageError::BufferPoolExhausted => self.pool().capacity_view() == 0,
            _ => false,
        }
    }

    /// What may keep an insertion into a sound subtree from succeeding:
    /// a failure that is not of the tree's making; a page too full to
    /// take a cell even once split; or no page to be had, or no room for
    /// a longer value even in a page of its own.
    pub open spec fn hinders(&self, e: StorageError) -> bool {
        self.excuses(e) || e is PageFull || e is InvalidOperation
    }

    /// The tree has the means to work on the pages it has: its disk
    /// manager is dependable, and its pool has a frame.
    pub open spec fn able(&self) -> bool {
        &&& self.pool().disk().dependable()
        &&& self.pool().capacity_view() >= 1
    }

    /// The tree can take its first page without fail: it has the means
    /// to work, no page is on the free list, and the file can grow by a
    /// page.
    pub open spec fn can_grow(&self) -> bool {
        &&& self.able()
        &&& self.pool().disk().free_pages().len() == 0
        &&& 0 < self.pool().disk().header_view().page_count < u32::MAX
    }

    /// `n` pages are to be had without fail: none is on the free list,
    /// and the file can grow by `n` pages.
    pub open spec fn pages_to_be_had(&self, n: nat) -> bool {
        &&& self.pool().disk().free_pages().len() == 0
        &&& 0 < self.pool().disk().header_view().page_count
        &&& self.pool().disk().header_view().page_count + n <= u32::MAX
    }

    /// A page is to be had without fail.
    pub open spec fn page_to_be_had(&self) -> bool {
        self.pages_to_be_had(1)
    }

    /// One page more is in use than in `before`, the page after the last
    /// of `before`, and none is free.
    pub open spec fn took_a_page_since(&self, before: &Self) -> bool {
        &&& self.pool().disk().free_pages().len() == 0
        &&& self.pool().disk().header_view().page_count
            == before.pool().disk().header_view().page_count + 1
    }

    /// At most `n` pages more are in use than in `before`, and none is
    /// free.
    pub open spec fn took_pages_since(&self, before: &Self, n: nat) -> bool {
        &&& self.pool().disk().free_pages().len() == 0
        &&& before.pool().disk().header_view().page_count
            <= self.pool().disk().header_view().page_count
            <= before.pool().disk().header_view().page_count + n
    }

    /// The separator that the result of an insertion passes up, if any.
    pub open spec fn passed_up(res: Option<(Vec<u8>, PageId)>) -> Option<Seq<u8>> {
        match res {
            Some((separator, _)) => Some(separator@),
            None => None,
        }
    }

    /// The pair goes in, by splits where they are needed: a page is to be
    /// had for every level of the tree and one for a new root; every page on
    /// the way has room for what comes to it, as it stands or once it is
    /// split (see `way_in`); and if the root is split, a new root has
    /// room for the separator, and the height can grow.
    pub open spec fn splits(&self, key: Seq<u8>, value: Seq<u8>) -> bool {
        let s = self.pool().store();
        let way = way_in(
            s,
            self.root().0,
            self.spec_height() as nat,
            key,
            spec_encode_leaf(key, value).len(),
        );
        &&& self.root().0 != 0
        &&& self.pages_to_be_had((self.spec_height() + 1) as nat)
        &&& way is Some
        &&& way matches Some(Some(sep)) ==> fresh_root_takes(sep) && self.spec_height()
            < 0xFFFF_FFFF
    }

    /// The root of the tree is new since `before`. Where `before` was
    /// empty, it is a leaf that holds the pair. Else it is an interior
    /// page whose first child is the root of `before`, and whose one cell
    /// leads to a page that was not in use, under the separator that the
    /// split of the old root passed up.
    pub open spec fn new_root_over(&self, before: &Self, key: Seq<u8>, value: Seq<u8>) -> bool {
        let v = page_at(self.pool().store(), self.root().0);
        if before.root().0 == 0 {
            v == (PageView {
                page_type: PageType::LeafTable,
                right_child: PageId(0),
                cells: seq![leaf_view(key, value)],
            })
        } else {
            &&& v.page_type == PageType::InteriorTable
            &&& v.right_child == before.root()
            &&& v.cells.len() == 1
            &&& v.cells[0].cell_type == CellType::Interior
            &&& !is_allocated(
                before.pool().disk().header_view().page_count,
                before.pool().disk().free_pages(),
                v.cells[0].left_child.0,
            )
            &&& way_in(
                before.pool().store(),
                before.root().0,
                before.spec_height() as nat,
                key,
                spec_encode_leaf(key, value).len(),
            ) matches Some(Some(sep)) ==> v.cells[0].key == sep
        }
    }

    /// `value` can take the place of what is held: there is a value, and
    /// it is no shorter.
    pub open spec fn replaces(held: Option<Seq<u8>>, value: Seq<u8>) -> bool {
        held matches Some(v) && value.len() <= v.len()
    }

    /// The pair goes into the subtree of `id` without a new page: its
    /// value replaces one that is no shorter, or its key is new and the
    /// leaf for it has room.
    pub open spec fn fits_under(&self, id: u32, h: nat, key: Seq<u8>, value: Seq<u8>) -> bool {
        match subtree_get(self.pool().store(), id, h, key) {
            Some(held) => value.len() <= held.len(),
            None => has_room(self.pool().store(), id, h, key, value),
        }
    }

    /// The pair goes in without a new page: its value replaces one that
    /// is no shorter, or its key is new and the leaf for it has room.
    pub open spec fn fits(&self, key: Seq<u8>, value: Seq<u8>) -> bool {
        if self@.contains_key(key) {
            value.len() <= self@[key].len()
        } else {
            self.root().0 != 0 && has_room(
                self.pool().store(),
                self.root().0,
                self.spec_height() as nat,
                key,
                value,
            )
        }
    }

    /// The tree has the means that `other` had: as many frames, and a
    /// disk manager that is dependable if that of `other` was.
    pub open spec fn keeps_means_of(&self, other: &Self) -> bool {
        &&& self.pool().capacity_view() == other.pool().capacity_view()
        &&& other.pool().disk().dependable() ==> self.pool().disk().dependable()
    }

    /// Soundness is a matter of what the pages hold: a tree with the
    /// same root and height, whose header says so and counts as many
    /// pages, with no page on its free list, and with the pages of `self`
    /// in its store, is sound where `self` is, and holds the same.
    pub proof fn lemma_sound_by_content<E: DiskManager>(&self, other: &BTree<E>)
        requires
            self.inv(),
            other.wf(),
            other.root() == self.root(),
            other.spec_height() == self.spec_height(),
            other.pool().disk().header_view().root_page == other.root(),
            other.pool().disk().header_view().tree_height == other.spec_height(),
            other.pool().disk().header_view().page_count
                == self.pool().disk().header_view().page_count,
            other.pool().disk().free_pages() == Seq::<PageId>::empty(),
            forall|x: u32|
                0 < x < self.pool().disk().header_view().page_count
                    && #[trigger] self.pool().store().contains_key(x)
                    ==> other.pool().store().contains_key(x) && other.pool().store()[x]
                    == self.pool().store()[x],
        ensures
            other.inv(),
            other@ == self@,
    {
        let s = self.pool().store();
        let t = other.pool().store();
        let root = self.root().0;
        let h = self.spec_height() as nat;
        if root != 0 {
            assert forall|x: u32| #[trigger] in_subtree(s, root, h, x) implies t.contains_key(x)
                && t[x] == s[x] by {
                assert(self.page_ok(x));
                crate::btree::model::lemma_in_subtree_has(s, root, h, None, None, x);
            }
            crate::btree::model::lemma_frame(s, t, root, h, None, None);
            assert forall|x: u32| #[trigger] in_subtree(t, root, h, x) implies other.page_ok(
                x,
            ) by {
                assert(in_subtree(s, root, h, x));
                assert(self.page_ok(x));
            }
        }
        assert(other@ =~= self@);
    }

    /// Page `x` is in use, and its content is laid out tidily.
    pub open spec fn page_ok(&self, x: u32) -> bool {
        &&& is_allocated(
            self.pool().disk().header_view().page_count,
            self.pool().disk().free_pages(),
            x,
        )
        &&& image_tidy(self.pool().store()[x])
    }

    /// Every page of the subtree of `id` is in use and tidy.
    pub open spec fn pages_in_use(&self, id: u32, h: nat) -> bool {
        forall|x: u32| #[trigger] in_subtree(self.pool().store(), id, h, x) ==> self.page_ok(x)
    }

    /// Create a tree handle over a pool: root and height are those of the
    /// file header.
    pub fn new(buffer_pool: BufferPoolImpl<D>) -> (r: Result<Self, StorageError>)
        requires
            buffer_pool.inv(),
            forall|k: u32| buffer_pool.pins(k) == 0,
        ensures
            match r {
                Ok(tree) => {
                    &&& tree.wf()
                    &&& tree.pool() == buffer_pool
                    &&& tree.root() == buffer_pool.disk().header_view().root_page
                    &&& tree.spec_height() == buffer_pool.disk().header_view().tree_height
                    &&& buffer_pool.disk().header_view().root_page.0 == 0
                        && buffer_pool.disk().header_view().tree_height == 0 && free_distinct(
                        buffer_pool.disk().free_pages(),
                    ) ==> tree.inv() && tree@ == Map::<Seq<u8>, Seq<u8>>::empty()
                },
                Err(_) => false,
            },
    {
        proof {
            assert(tree_map(buffer_pool.store(), 0, 0) =~= Map::<Seq<u8>, Seq<u8>>::empty());
        }
        let root_page = buffer_pool.root_page();
        let height = buffer_pool.tree_height() as usize;
        Ok(BTree { buffer_pool, root_page, height })
    }

    /// Get the height of the tree.
    pub fn height(&self) -> (r: usize)
        ensures
            r == self.spec_height(),
    {
        self.height
    }

    /// Get the root page ID.
    pub fn root_page(&self) -> (r: PageId)
        ensures
            r == self.root(),
    {
        self.root_page
    }

    /// The buffer pool under the tree.
    pub fn buffer_pool(&self) -> (r: &BufferPoolImpl<D>)
        ensures
            *r == self.pool(),
    {
        &self.buffer_pool
    }

    /// Give up the handle for the buffer pool under it.
    pub fn into_buffer_pool(self) -> (r: BufferPoolImpl<D>)
        ensures
            r == self.pool(),
    {
        self.buffer_pool
    }

    /// A copy of page `page_id`, which is fetched for the time of the
    /// copy.
    fn load(&mut self, page_id: PageId) -> (r: Result<SlottedPage, StorageError>)
        requires
            old(self).wf(),
        ensures
            final(self).wf(),
            final(self).keeps_means_of(old(self)),
            final(self).root() == old(self).root(),
            final(self).spec_height() == old(self).spec_height(),
            final(self).pool().store() == old(self).pool().store(),
            final(self).pool().capacity_view() == old(self).pool().capacity_view(),
            final(self).pool().disk().header_view() == old(self).pool().disk().header_view(),
            final(self).pool().disk().free_pages() == old(self).pool().disk().free_pages(),
            match r {
                Ok(page) => {
                    &&& page.wf()
                    &&& old(self).pool().store().contains_key(page_id.0)
                    &&& page.image() == old(self).pool().store()[page_id.0]
                    &&& 0 < page_id.0 < old(self).pool().disk().header_view().page_count
                },
                Err(StorageError::InvalidOperation(_)) => page_id.0 == 0,
                Err(StorageError::PageNotFound(p)) => p == page_id
                    && page_id.0 >= old(self).pool().disk().header_view().page_count,
                Err(StorageError::Io(_)) => !old(self).pool().disk().dependable(),
                Err(StorageError::InvalidPage(_)) | Err(StorageError::Corruption(_)) => old(self).pool().store().contains_key(page_id.0)
                    && !crate::page::slotted::image_wf(
                    old(self).pool().store()[page_id.0],
                ),
                Err(StorageError::BufferPoolExhausted) => old(self).pool().capacity_view() == 0,
                Err(_) => false,
            },
    {
        let guard = match self.buffer_pool.fetch_page(page_id) {
            Ok(guard) => guard,
            Err(e) => {
                proof {
                    assert forall|k: u32| self.pool().pins(k) == 0 by {
                        self.pool().lemma_store(k);
                        old(self).pool().lemma_store(k);
                    }
                    if e is BufferPoolExhausted {
                        old(self).pool().lemma_exhausted();
                    }
                }
                return Err(e);
            },
        };
        let copy = match guard.read(&self.buffer_pool) {
            Ok(page) => Ok(page.clone()),
            Err(e) => Err(e),
        };
        proof {
            self.pool().lemma_store(page_id.0);
        }
        let ghost mid = self.pool();
        self.buffer_pool.release(guard);
        proof {
            assert forall|k: u32| self.pool().pins(k) == 0 by {
                mid.lemma_store(k);
            }
        }
        copy
    }

    /// Put `page` in the place of page `page_id`, which is fetched for
    /// the time of the change.
    fn save(&mut self, page_id: PageId, page: SlottedPage) -> (r: Result<(), StorageError>)
        requires
            old(self).wf(),
            page.wf(),
        ensures
            final(self).wf(),
            final(self).keeps_means_of(old(self)),
            final(self).root() == old(self).root(),
            final(self).spec_height() == old(self).spec_height(),
            final(self).pool().capacity_view() == old(self).pool().capacity_view(),
            final(self).pool().disk().header_view() == old(self).pool().disk().header_view(),
            final(self).pool().disk().free_pages() == old(self).pool().disk().free_pages(),
            r is Err ==> final(self).pool().store() == old(self).pool().store(),
            match r {
                Ok(()) => final(self).pool().store() == old(self).pool().store().insert(
                    page_id.0,
                    page.image(),
                ) && 0 < page_id.0 < old(self).pool().disk().header_view().page_count,
                Err(StorageError::InvalidOperation(_)) => page_id.0 == 0,
                Err(StorageError::PageNotFound(p)) => p == page_id
                    && page_id.0 >= old(self).pool().disk().header_view().page_count,
                Err(StorageError::Io(_)) => !old(self).pool().disk().dependable(),
                Err(StorageError::InvalidPage(_)) | Err(StorageError::Corruption(_)) => old(self).pool().store().contains_key(page_id.0)
                    && !crate::page::slotted::image_wf(
                    old(self).pool().store()[page_id.0],
                ),
                Err(StorageError::BufferPoolExhausted) => old(self).pool().capacity_view() == 0,
                Err(_) => false,
            },
    {
        let guard = match self.buffer_pool.fetch_page_mut(page_id) {
            Ok(guard) => guard,
            Err(e) => {
                proof {
                    assert forall|k: u32| self.pool().pins(k) == 0 by {
                        self.pool().lemma_store(k);
                        old(self).pool().lemma_store(k);
                    }
                    if e is BufferPoolExhausted {
                        old(self).pool().lemma_exhausted();
                    }
                }
                return Err(e);
            },
        };
        proof {
            self.pool().lemma_store(page_id.0);
        }
        let written = guard.write(&mut self.buffer_pool, page);
        let ghost mid = self.pool();
        self.buffer_pool.release_mut(guard);
        proof {
            assert forall|k: u32| self.pool().pins(k) == 0 by {
                mid.lemma_store(k);
            }
        }
        written
    }

    /// Allocate a page and give it the content `page`.
    fn install(&mut self, page: SlottedPage) -> (r: Result<PageId, StorageError>)
        requires
            old(self).wf(),
            page.wf(),
        ensures
            final(self).wf(),
            final(self).keeps_means_of(old(self)),
            final(self).pool().after_attempt_from(&old(self).pool()),
            final(self).root() == old(self).root(),
            final(self).spec_height() == old(self).spec_height(),
            final(self).pool().capacity_view() == old(self).pool().capacity_view(),
            match r {
                Ok(page_id) => {
                    &&& 0 < page_id.0 < final(self).pool().disk().header_view().page_count
                    &&& final(self).pool().store() == old(self).pool().store().insert(
                        page_id.0,
                        page.image(),
                    )
                    &&& if old(self).pool().disk().free_pages().len() > 0 {
                        &&& page_id == old(self).pool().disk().free_pages()[0]
                        &&& final(self).pool().disk().free_pages() == old(self).pool().disk().free_pages().skip(1)
                        &&& final(self).pool().disk().header_view() == old(self).pool().disk().header_view()
                    } else {
                        &&& page_id == PageId(old(self).pool().disk().header_view().page_count)
                        &&& final(self).pool().disk().free_pages() == old(self).pool().disk().free_pages()
                        &&& final(self).pool().disk().header_view() == (
                        crate::storage::file_header::FileHeader {
                            page_count: (old(self).pool().disk().header_view().page_count
                                + 1) as u32,
                            ..old(self).pool().disk().header_view()
                        })
                    }
                },
                Err(StorageError::InvalidOperation(_)) => if old(self).pool().disk().free_pages().len()
                    > 0 {
                    old(self).pool().disk().free_pages()[0].0 == 0
                        || old(self).pool().disk().free_pages()[0].0
                        >= old(self).pool().disk().header_view().page_count
                } else {
                    old(self).pool().disk().header_view().page_count == u32::MAX
                        || old(self).pool().disk().header_view().page_count
                        == 0
                },
                Err(e) => old(self).excuses(e),
            },
            free_distinct(old(self).pool().disk().free_pages()) ==> (r matches Ok(page_id) ==> {
                &&& grows(
                    old(self).pool().disk().header_view(),
                    old(self).pool().disk().free_pages(),
                    final(self).pool().disk().header_view(),
                    final(self).pool().disk().free_pages(),
                )
                &&& !is_allocated(
                    old(self).pool().disk().header_view().page_count,
                    old(self).pool().disk().free_pages(),
                    page_id.0,
                )
                &&& is_allocated(
                    final(self).pool().disk().header_view().page_count,
                    final(self).pool().disk().free_pages(),
                    page_id.0,
                )
                &&& forall|x: u32|
                    x != page_id.0 ==> #[trigger] is_allocated(
                        final(self).pool().disk().header_view().page_count,
                        final(self).pool().disk().free_pages(),
                        x,
                    ) == is_allocated(
                        old(self).pool().disk().header_view().page_count,
                        old(self).pool().disk().free_pages(),
                        x,
                    )
            }),
    {
        let (page_id, guard) = match self.buffer_pool.new_page() {
            Ok(found) => found,
            Err(e) => {
                proof {
                    assert forall|k: u32| self.pool().pins(k) == 0 by {
                        self.pool().lemma_store(k);
                        old(self).pool().lemma_store(k);
                    }
                    if e is BufferPoolExhausted {
                        old(self).pool().lemma_exhausted();
                    }
                }
                return Err(e);
            },
        };
        let ghost store1 = self.pool().store();
        let ghost image = page.image();
        let written = guard.write(&mut self.buffer_pool, page);
        let ghost mid = self.pool();
        self.buffer_pool.release_mut(guard);
        proof {
            assert forall|k: u32| self.pool().pins(k) == 0 by {
                mid.lemma_store(k);
            }
            assert(store1.insert(page_id.0, image) =~= old(self).pool().store().insert(
                page_id.0,
                image,
            )) by {
                assert(store1.remove(page_id.0) == old(self).pool().store().remove(page_id.0));
                assert forall|k: u32| k != page_id.0 implies #[trigger] store1.contains_key(k)
                    == old(self).pool().store().contains_key(k) && (store1.contains_key(k)
                    ==> store1[k] == old(self).pool().store()[k]) by {
                    assert(store1.remove(page_id.0).contains_key(k) == store1.contains_key(k));
                    assert(old(self).pool().store().remove(page_id.0).contains_key(k) == old(self).pool().store().contains_key(k));
                    if store1.contains_key(k) {
                        assert(store1.remove(page_id.0)[k] == store1[k]);
                        assert(old(self).pool().store().remove(page_id.0)[k] == old(self).pool().store()[k]);
                    }
                }
            }
        }
        proof {
            let next = old(self).pool().next_page();
            assert(page_id.0 == next);
            assert(self.pool().store().remove(next) =~= old(self).pool().store().remove(next)) by {
                if written is Ok {
                    assert(self.pool().store() == store1.insert(page_id.0, image));
                } else {
                    assert(self.pool().store() == store1);
                }
            }
        }
        proof {
            if free_distinct(old(self).pool().disk().free_pages()) {
                lemma_allocation(
                    old(self).pool().disk().header_view().page_count,
                    old(self).pool().disk().free_pages(),
                    self.pool().disk().header_view().page_count,
                    self.pool().disk().free_pages(),
                    page_id,
                );
            }
        }
        match written {
            Ok(()) => Ok(page_id),
            Err(e) => Err(e),
        }
    }

    /// Look up a key and return its value.
    ///
    /// Nothing changes. In a sound tree the result is what the tree
    /// holds under the key, unless the pool fails to bring in a page.
    pub fn get(&mut self, key: &[u8]) -> (r: Result<Option<Vec<u8>>, StorageError>)
        requires
            old(self).wf(),
        ensures
            final(self).wf(),
            final(self).keeps_means_of(old(self)),
            final(self).root() == old(self).root(),
            final(self).spec_height() == old(self).spec_height(),
            final(self).pool().store() == old(self).pool().store(),
            final(self).pool().disk().header_view() == old(self).pool().disk().header_view(),
            final(self).pool().disk().free_pages() == old(self).pool().disk().free_pages(),
            old(self).inv() ==> final(self).inv() && final(self)@ == old(self)@,
            old(self).inv() ==> match r {
                Ok(value) => match value {
                    Some(bytes) => old(self)@.contains_key(key@) && old(self)@[key@] == bytes@,
                    None => !old(self)@.contains_key(key@),
                },
                Err(e) => old(self).excuses(e) && old(self).root().0 != 0,
            },
    {
        if self.root_page.value() == 0 {
            return Ok(None);
        }
        let root = self.root_page;
        let depth = self.height;
        self.search(root, key, depth, Ghost(None), Ghost(None))
    }

    /// Search for a key in the subtree of `page_id`, whose leaves lie
    /// `depth` levels down.
    fn search(
        &mut self,
        page_id: PageId,
        key: &[u8],
        depth: usize,
        Ghost(lo): Ghost<Bound>,
        Ghost(hi): Ghost<Bound>,
    ) -> (r: Result<Option<Vec<u8>>, StorageError>)
        requires
            old(self).wf(),
        ensures
            final(self).wf(),
            final(self).keeps_means_of(old(self)),
            final(self).root() == old(self).root(),
            final(self).spec_height() == old(self).spec_height(),
            final(self).pool().store() == old(self).pool().store(),
            final(self).pool().disk().header_view() == old(self).pool().disk().header_view(),
            final(self).pool().disk().free_pages() == old(self).pool().disk().free_pages(),
            subtree_wf(old(self).pool().store(), page_id.0, depth as nat, lo, hi)
                && old(self).pages_in_use(page_id.0, depth as nat) ==> match r {
                Ok(value) => option_view(value) == subtree_get(
                    old(self).pool().store(),
                    page_id.0,
                    depth as nat,
                    key@,
                ),
                Err(e) => old(self).excuses(e),
            },
        decreases depth,
    {
        let ghost s = self.pool().store();
        let ghost sound = subtree_wf(s, page_id.0, depth as nat, lo, hi) && self.pages_in_use(
            page_id.0,
            depth as nat,
        );
        if depth == 0 {
            return Err(StorageError::corruption("the tree is deeper than its height"));
        }
        proof {
            if sound {
                assert(in_subtree(s, page_id.0, depth as nat, page_id.0));
            }
        }
        let page = match self.load(page_id) {
            Ok(page) => page,
            Err(e) => {
                return Err(e);
            },
        };
        proof {
            page.lemma_wf();
            if depth >= 2 {
                lemma_subtree_children(s, page_id.0, depth as nat, lo, hi);
            }
        }
        if page.is_leaf() {
            // Search in leaf.
            let found = match page.search(key) {
                Ok(found) => found,
                Err(e) => {
                    return Err(e);
                },
            };
            match found {
                Some(idx) => match page.get_cell(idx) {
                    Ok(cell) => {
                        proof {
                            lemma_leaf_get_at(page@.cells, idx as int);
                        }
                        Ok(Some(cell.value))
                    },
                    Err(e) => Err(e),
                },
                None => Ok(None),
            }
        } else {
            // Find child to descend into.
            let child_id = match page.find_child(key) {
                Ok(child_id) => child_id,
                Err(e) => {
                    return Err(e);
                },
            };
            let ghost j = crate::page::slotted::child_slot(page@.cells, key@) as int;
            proof {
                crate::page::slotted::lemma_child_slot(page@.cells, key@);
                if sound {
                    assert(child_id.0 == child_of(page@, j));
                    assert forall|x: u32| #[trigger]
                        in_subtree(s, child_id.0, (depth - 1) as nat, x) implies self.page_ok(x) by {
                        assert(in_subtree(s, page_id.0, depth as nat, x));
                    }
                }
            }
            self.search(
                child_id,
                key,
                depth - 1,
                Ghost(child_lo(page@, j, lo)),
                Ghost(child_hi(page@, j, hi)),
            )
        }
    }

    /// Trace a lookup: the lines of text of its steps.
    ///
    /// Nothing changes. In a sound tree the lines are those of the steps
    /// of the lookup, one line for each step.
    pub fn debug_get(&mut self, key: &[u8]) -> (r: Result<Vec<String>, StorageError>)
        requires
            old(self).wf(),
        ensures
            final(self).wf(),
            final(self).keeps_means_of(old(self)),
            final(self).same_tree(old(self)),
            old(self).inv() ==> final(self).inv() && final(self)@ == old(self)@,
            old(self).inv() ==> match r {
                Ok(lines) => {
                    let steps = tree_trace(
                        old(self).pool().store(),
                        old(self).root().0,
                        old(self).spec_height() as nat,
                        key@,
                    );
                    &&& lines@.len() == steps.len()
                    &&& forall|i: int|
                        0 <= i < lines@.len() ==> (#[trigger] lines@[i])@ == rendered(steps[i])
                },
                Err(e) => old(self).excuses(e) && old(self).root().0 != 0,
            },
    {
        let steps = match self.debug_steps(key) {
            Ok(steps) => steps,
            Err(e) => {
                return Err(e);
            },
        };
        let mut lines: Vec<String> = Vec::new();
        let mut i: usize = 0;
        while i < steps.len()
            invariant
                i <= steps@.len(),
                lines@.len() == i,
                forall|j: int| 0 <= j < i ==> (#[trigger] lines@[j])@ == rendered(steps@[j]@),
            decreases steps@.len() - i,
        {
            lines.push(steps[i].render());
            i += 1;
        }
        Ok(lines)
    }

    /// Trace a lookup: the steps that the lookup takes, from the root to
    /// the leaf, with what it sees on every page.
    pub fn debug_steps(&mut self, key: &[u8]) -> (r: Result<Vec<TraceStep>, StorageError>)
        requires
            old(self).wf(),
        ensures
            final(self).wf(),
            final(self).keeps_means_of(old(self)),
            final(self).same_tree(old(self)),
            old(self).inv() ==> final(self).inv() && final(self)@ == old(self)@,
            old(self).inv() ==> match r {
                Ok(steps) => step_views(steps@) == tree_trace(
                    old(self).pool().store(),
                    old(self).root().0,
                    old(self).spec_height() as nat,
                    key@,
                ),
                Err(e) => old(self).excuses(e) && old(self).root().0 != 0,
            },
    {
        let mut trace: Vec<TraceStep> = Vec::new();
        if self.root_page.value() == 0 {
            trace.push(TraceStep::EmptyTree);
            proof {
                assert(step_views(trace@) =~= seq![TraceStepView::EmptyTree]);
            }
            return Ok(trace);
        }
        trace.push(TraceStep::Searching { key: slice_to_vec(key) });
        trace.push(TraceStep::Root { page_id: self.root_page, height: self.height });
        let ghost head = step_views(trace@);
        proof {
            assert(head =~= seq![
                TraceStepView::Searching { key: key@ },
                TraceStepView::Root { page_id: self.root(), height: self.spec_height() },
            ]);
        }
        let root = self.root_page;
        let depth = self.height;
        match self.search_with_trace(root, key, &mut trace, depth, Ghost(None), Ghost(None)) {
            Ok(_) => Ok(trace),
            Err(e) => Err(e),
        }
    }

    /// Search for a key in the subtree of `page_id` and record the steps.
    #[verifier::rlimit(100)]
    fn search_with_trace(
        &mut self,
        page_id: PageId,
        key: &[u8],
        trace: &mut Vec<TraceStep>,
        depth: usize,
        Ghost(lo): Ghost<Bound>,
        Ghost(hi): Ghost<Bound>,
    ) -> (r: Result<Option<Vec<u8>>, StorageError>)
        requires
            old(self).wf(),
        ensures
            final(self).wf(),
            final(self).keeps_means_of(old(self)),
            final(self).same_tree(old(self)),
            subtree_wf(old(self).pool().store(), page_id.0, depth as nat, lo, hi)
                && old(self).pages_in_use(page_id.0, depth as nat) ==> match r {
                Ok(value) => {
                    &&& option_view(value) == subtree_get(
                        old(self).pool().store(),
                        page_id.0,
                        depth as nat,
                        key@,
                    )
                    &&& step_views(final(trace)@) == step_views(old(trace)@) + subtree_trace(
                        old(self).pool().store(),
                        page_id.0,
                        depth as nat,
                        key@,
                    )
                },
                Err(e) => old(self).excuses(e),
            },
        decreases depth,
    {
        let ghost s = self.pool().store();
        let ghost h = depth as nat;
        let ghost sound = subtree_wf(s, page_id.0, h, lo, hi) && self.pages_in_use(page_id.0, h);
        let ghost before = step_views(trace@);
        if depth == 0 {
            return Err(StorageError::corruption("the tree is deeper than its height"));
        }
        proof {
            if sound {
                assert(in_subtree(s, page_id.0, h, page_id.0));
            }
        }
        let page = match self.load(page_id) {
            Ok(page) => page,
            Err(e) => {
                return Err(e);
            },
        };
        proof {
            page.lemma_wf();
            if depth >= 2 {
                lemma_subtree_children(s, page_id.0, h, lo, hi);
            }
        }
        let cell_count = page.cell_count();
        let is_leaf = page.is_leaf();
        let ghost cells = page@.cells;
        let ghost whole = trace@;
        trace.push(TraceStep::Page { page_id, is_leaf, cell_count });
        let ghost head = before.push(
            TraceStepView::Page { page_id, is_leaf, cell_count },
        );
        proof {
            assert(step_views(trace@) =~= head);
        }
        if is_leaf {
            // Show all keys in this page.
            let mut i: usize = 0;
            while i < cell_count
                invariant
                    page.wf(),
                    page@.page_type.spec_is_leaf(),
                    cells == page@.cells,
                    cell_count == cells.len(),
                    i <= cell_count,
                    step_views(trace@) == head + leaf_cell_steps(cells, i as nat),
                decreases cell_count - i,
            {
                let ghost shown = step_views(trace@);
                match page.get_cell(i) {
                    Ok(cell) => {
                        trace.push(TraceStep::LeafCell { index: i, key: cell.key });
                        proof {
                            assert(step_views(trace@) =~= shown.push(
                                TraceStepView::LeafCell { index: i, key: cells[i as int].key },
                            ));
                            assert(step_views(trace@) =~= head + leaf_cell_steps(
                                cells,
                                (i + 1) as nat,
                            ));
                        }
                    },
                    Err(e) => {
                        return Err(e);
                    },
                }
                i += 1;
            }
            let found = match page.search(key) {
                Ok(found) => found,
                Err(e) => {
                    return Err(e);
                },
            };
            let ghost shown = step_views(trace@);
            match found {
                Some(idx) => {
                    let cell = match page.get_cell(idx) {
                        Ok(cell) => cell,
                        Err(e) => {
                            return Err(e);
                        },
                    };
                    trace.push(TraceStep::Found { index: idx });
                    proof {
                        lemma_leaf_get_at(cells, idx as int);
                        let c = choose|c: int| 0 <= c < cells.len() && (#[trigger] cells[c]).key
                            == key@;
                        if c < idx {
                            assert(key_lt(cells[c].key, cells[idx as int].key));
                        } else if c > idx {
                            assert(key_lt(cells[idx as int].key, cells[c].key));
                        }
                        crate::types::key_order::lemma_key_lt_irreflexive(key@);
                        assert(leaf_outcome(cells, key@) == TraceStepView::Found { index: idx });
                        assert(step_views(trace@) =~= shown.push(leaf_outcome(cells, key@)));
                        if sound {
                            assert(step_views(trace@) =~= before + subtree_trace(
                                s,
                                page_id.0,
                                h,
                                key@,
                            ));
                        }
                    }
                    Ok(Some(cell.value))
                },
                None => {
                    trace.push(TraceStep::NotFound);
                    proof {
                        assert(leaf_outcome(cells, key@) == TraceStepView::NotFound);
                        assert(step_views(trace@) =~= shown.push(leaf_outcome(cells, key@)));
                        if sound {
                            assert(step_views(trace@) =~= before + subtree_trace(
                                s,
                                page_id.0,
                                h,
                                key@,
                            ));
                        }
                    }
                    Ok(None)
                },
            }
        } else {
            // Show the children: the child of the header holds the keys
            // below the first separator.
            let right_child = page.right_child();
            trace.push(TraceStep::HeaderChild { child: right_child });
            let ghost head2 = head.push(TraceStepView::HeaderChild { child: right_child });
            proof {
                assert(step_views(trace@) =~= head2);
                assert(head2 + interior_cell_steps(cells, 0) =~= head2);
            }
            let mut i: usize = 0;
            while i < cell_count
                invariant
                    page.wf(),
                    !page@.page_type.spec_is_leaf(),
                    cells == page@.cells,
                    cell_count == cells.len(),
                    i <= cell_count,
                    step_views(trace@) == head2 + interior_cell_steps(cells, i as nat),
                decreases cell_count - i,
            {
                let ghost shown = step_views(trace@);
                match page.get_cell(i) {
                    Ok(cell) => {
                        trace.push(
                            TraceStep::InteriorCell {
                                index: i,
                                key: cell.key,
                                child: cell.left_child,
                            },
                        );
                        proof {
                            page.lemma_wf();
                            assert(step_views(trace@) =~= shown.push(
                                TraceStepView::InteriorCell {
                                    index: i,
                                    key: cells[i as int].key,
                                    child: cells[i as int].left_child,
                                },
                            ));
                            assert(step_views(trace@) =~= head2 + interior_cell_steps(
                                cells,
                                (i + 1) as nat,
                            ));
                        }
                    },
                    Err(e) => {
                        return Err(e);
                    },
                }
                i += 1;
            }
            let child_id = match page.find_child(key) {
                Ok(child_id) => child_id,
                Err(e) => {
                    return Err(e);
                },
            };
            let ghost shown = step_views(trace@);
            trace.push(TraceStep::Descend { child: child_id });
            let ghost j = child_slot(page@.cells, key@) as int;
            let ghost local = step_views(trace@);
            proof {
                assert(local =~= shown.push(TraceStepView::Descend { child: child_id }));
                lemma_child_slot(page@.cells, key@);
                if sound {
                    assert(child_id.0 == child_of(page@, j));
                    assert forall|x: u32| #[trigger]
                        in_subtree(s, child_id.0, (depth - 1) as nat, x) implies self.page_ok(x) by {
                        assert(in_subtree(s, page_id.0, h, x));
                    }
                }
            }
            let r = self.search_with_trace(
                child_id,
                key,
                trace,
                depth - 1,
                Ghost(child_lo(page@, j, lo)),
                Ghost(child_hi(page@, j, hi)),
            );
            proof {
                if sound && r is Ok {
                    assert(step_views(trace@) =~= before + subtree_trace(s, page_id.0, h, key@));
                }
            }
            r
        }
    }

    /// Insert or update a key-value pair.
    ///
    /// A key of more than `MAX_KEY_SIZE` bytes and a value of more than
    /// `MAX_VALUE_SIZE` bytes are rejected, and nothing changes. In a
    /// sound tree a put that succeeds leaves a sound tree that holds the
    /// value under the key and, under every other key, what it held. The
    /// height grows by one exactly where the tree gets a new root, which
    /// is where the root is split or the first key comes in; it never
    /// shrinks.
    ///
    /// A put into a sound tree fails only for what is not of the tree's
    /// making (see [`BTree::excuses`]), or as an operation that cannot be
    /// done: where no page is to be had, or where the pair does not fit
    /// in the page of its key even once that page is split. A full page
    /// is never reported as such. The first put into an empty tree that
    /// can grow succeeds, and so does, in a tree that has the means to
    /// work, a put that needs no new page: one that replaces a value by
    /// one that is no longer, or one under a new key for which the leaf
    /// has room. So does a put that goes in by splits, where
    /// the pages for them are to be had and every page on the way has
    /// room for what comes to it, as it stands or once it is split
    /// (`splits`). Root and height stay where the pair needs no new page.
    ///
    /// A put that fails leaves a sound tree: one that holds nothing that
    /// it did not hold, but possibly the new value. Where the failure
    /// came after a page below was split, keys of that page may be out
    /// of reach.
    #[verifier::rlimit(100)]
    pub fn put(&mut self, key: &[u8], value: &[u8]) -> (r: Result<(), StorageError>)
        requires
            old(self).wf(),
        ensures
            final(self).wf(),
            final(self).keeps_means_of(old(self)),
            final(self).spec_height() == old(self).spec_height() || final(self).spec_height()
                == old(self).spec_height() + 1,
            match r {
                Ok(()) => {
                    &&& key@.len() <= MAX_KEY_SIZE
                    &&& value@.len() <= MAX_VALUE_SIZE
                    &&& old(self).inv() ==> final(self).inv()
                        && final(self)@ == old(self)@.insert(key@, value@)
                    &&& old(self).inv() ==> (final(self).spec_height() == old(self).spec_height()
                        <==> final(self).root() == old(self).root())
                    &&& old(self).inv() && old(self).fits(key@, value@) ==> final(self).root()
                        == old(self).root()
                    &&& old(self).inv() && final(self).root() != old(self).root()
                        ==> final(self).new_root_over(old(self), key@, value@)
                },
                Err(StorageError::KeyTooLarge { size, max }) => {
                    &&& key@.len() > MAX_KEY_SIZE
                    &&& size == key@.len()
                    &&& max == MAX_KEY_SIZE
                    &&& final(self).same_tree(old(self))
                },
                Err(StorageError::ValueTooLarge { size, max }) => {
                    &&& key@.len() <= MAX_KEY_SIZE
                    &&& value@.len() > MAX_VALUE_SIZE
                    &&& size == value@.len()
                    &&& max == MAX_VALUE_SIZE
                    &&& final(self).same_tree(old(self))
                },
                Err(e) => {
                    &&& key@.len() <= MAX_KEY_SIZE
                    &&& value@.len() <= MAX_VALUE_SIZE
                    &&& !(e is PageFull)
                    &&& old(self).inv() ==> old(self).excuses(e) || e is InvalidOperation
                    &&& old(self).inv() ==> final(self).inv() && at_most_put(
                        final(self)@,
                        old(self)@,
                        key@,
                        value@,
                    )
                    &&& !(old(self).inv() && old(self).root().0 == 0 && old(self).can_grow())
                    &&& !(old(self).inv() && old(self).able() && old(self).fits(key@, value@))
                    &&& !(old(self).inv() && old(self).able() && old(self).splits(key@, value@))
                },
            },
    {
        // Validate key and value sizes.
        if key.len() > MAX_KEY_SIZE {
            return Err(StorageError::KeyTooLarge { size: key.len(), max: MAX_KEY_SIZE });
        }
        if value.len() > MAX_VALUE_SIZE {
            return Err(StorageError::ValueTooLarge { size: value.len(), max: MAX_VALUE_SIZE });
        }
        let ghost s = self.pool().store();
        let ghost h0 = self.pool().disk().header_view();
        let ghost f0 = self.pool().disk().free_pages();
        if self.root_page.value() == 0 {
            // Create root page.
            let mut page = SlottedPage::new_leaf();
            let cell = Cell::new_leaf(slice_to_vec(key), slice_to_vec(value));
            proof {
                crate::types::varint::lemma_encode_len(key@.len() as u64);
                crate::types::varint::lemma_encode_len(value@.len() as u64);
                assert(crate::page::cell::spec_encode_cell(cell@).len() <= key@.len()
                    + value@.len() + 20);
            }
            match page.insert_cell(&cell) {
                Ok(_) => {},
                Err(e) => {
                    return Err(Self::reported(e));
                },
            }
            let ghost image = page.image();
            let ghost cells = page@.cells;
            proof {
                page.lemma_wf();
                page.lemma_tidy();
                assert(cells =~= seq![cell@]);
            }
            let page_id = match self.install(page) {
                Ok(page_id) => page_id,
                Err(e) => {
                    proof {
                        if old(self).inv() {
                            let fe = old(self).pool().disk().free_pages();
                            let f1 = self.pool().disk().free_pages();
                            assert(free_distinct(f1)) by {
                                if f1 != fe {
                                    assert forall|i: int, j: int|
                                        0 <= i < j < f1.len() implies f1[i] != f1[j] by {
                                        assert(fe[i + 1] != fe[j + 1]);
                                    }
                                }
                            }
                            assert(self@ =~= old(self)@);
                        }
                    }
                    return Err(Self::reported(e));
                },
            };
            if self.height != 0 {
                // A tree without root has no height: the header is damaged.
                return Err(StorageError::corruption("a tree without root has a height"));
            }
            self.root_page = page_id;
            self.height = 1;
            // Persist the new root.
            let flushed = match self.buffer_pool.set_root_page(page_id, 1) {
                Ok(()) => self.buffer_pool.flush_page(page_id),
                Err(e) => Err(e),
            };
            proof {
                if old(self).inv() {
                    let t = self.pool().store();
                    assert(t == s.insert(page_id.0, image));
                    assert(page_at(t, page_id.0).cells == cells);
                    assert(subtree_wf(t, page_id.0, 1, None, None));
                    assert(in_subtree(t, page_id.0, 1, page_id.0));
                    assert forall|k: Seq<u8>| subtree_get(t, page_id.0, 1, k) == put_result(
                        k,
                        key@,
                        value@,
                        None,
                    ) by {
                        crate::btree::model::lemma_leaf_get_insert(
                            Seq::<crate::page::cell::CellView>::empty(),
                            0,
                            cell@,
                            k,
                        );
                        assert(Seq::<crate::page::cell::CellView>::empty().insert(0, cell@)
                            =~= cells);
                    }
                    assert(self@ =~= old(self)@.insert(key@, value@));
                }
            }
            return match flushed {
                Ok(()) => Ok(()),
                Err(e) => Err(Self::reported(e)),
            };
        }
        // Insert into existing tree.
        let root = self.root_page;
        let depth = self.height;
        let result = match self.insert_recursive(root, key, value, depth, Ghost(None), Ghost(None)) {
            Ok(result) => result,
            Err(e) => {
                proof {
                    if old(self).inv() {
                        self.lemma_failed_is_sound(s, h0, f0, key@, value@);
                    }
                }
                return Err(Self::reported(e));
            },
        };
        // Handle root split.
        match result {
            Some((separator, new_page_id)) => {
                match self.split_root(
                    separator,
                    new_page_id,
                    Ghost(s),
                    Ghost(h0),
                    Ghost(f0),
                    Ghost(key@),
                    Ghost(value@),
                ) {
                    Ok(()) => Ok(()),
                    Err(e) => Err(Self::reported(e)),
                }
            },
            None => {
                proof {
                    if old(self).inv() {
                        assert(self@ =~= old(self)@.insert(key@, value@));
                    }
                }
                Ok(())
            },
        }
    }

    /// The error that a put reports for an error from below the tree. A
    /// full page that no split could relieve is reported as an operation
    /// that cannot be done: a full page as such is the tree's own affair.
    /// The two errors that reject a put for the size of its key or value
    /// do not come from below; one that did would stand for a damaged
    /// page.
    fn reported(e: StorageError) -> (r: StorageError)
        ensures
            !(r is KeyTooLarge),
            !(r is ValueTooLarge),
            !(r is PageFull),
            e is PageFull ==> r is InvalidOperation,
            !(e is KeyTooLarge) && !(e is ValueTooLarge) && !(e is PageFull) ==> r == e,
    {
        match e {
            StorageError::KeyTooLarge { size: _, max: _ } => StorageError::corruption(
                "a page reports a key beyond the limit",
            ),
            StorageError::ValueTooLarge { size: _, max: _ } => StorageError::corruption(
                "a page reports a value beyond the limit",
            ),
            StorageError::PageFull { page_id: _, needed: _, available: _ } => {
                StorageError::invalid_operation("the pair does not fit in a page of its own")
            },
            other => other,
        }
    }

    /// Insert into the subtree of `page_id`, whose leaves lie `depth`
    /// levels down.
    ///
    /// Returns the separator key and the new page if the page was split.
    #[verifier::rlimit(100)]
    fn insert_recursive(
        &mut self,
        page_id: PageId,
        key: &[u8],
        value: &[u8],
        depth: usize,
        Ghost(lo): Ghost<Bound>,
        Ghost(hi): Ghost<Bound>,
    ) -> (r: Result<Option<(Vec<u8>, PageId)>, StorageError>)
        requires
            old(self).wf(),
            key@.len() <= MAX_KEY_SIZE,
            value@.len() <= MAX_VALUE_SIZE,
        ensures
            final(self).wf(),
            final(self).keeps_means_of(old(self)),
            final(self).root() == old(self).root(),
            final(self).spec_height() == old(self).spec_height(),
            r matches Ok(Some((separator, _))) ==> separator@.len() <= crate::types::PAGE_SIZE,
            old(self).insert_pre(page_id.0, depth as nat, lo, hi, key@) ==> (r matches Err(e)
                ==> old(self).hinders(e)),
            old(self).insert_pre(page_id.0, depth as nat, lo, hi, key@) ==> (r is Err
                ==> final(self).insert_fail_post(
                old(self).pool().store(),
                old(self).pool().disk().header_view(),
                old(self).pool().disk().free_pages(),
                page_id.0,
                depth as nat,
                lo,
                hi,
                key@,
                value@,
            )),
            old(self).insert_pre(page_id.0, depth as nat, lo, hi, key@) && old(self).able()
                && Self::replaces(
                subtree_get(old(self).pool().store(), page_id.0, depth as nat, key@),
                value@,
            ) ==> r matches Ok(None),
            old(self).insert_pre(page_id.0, depth as nat, lo, hi, key@) && old(self).able()
                && subtree_get(old(self).pool().store(), page_id.0, depth as nat, key@) is None
                && has_room(old(self).pool().store(), page_id.0, depth as nat, key@, value@)
                ==> r matches Ok(None),
            old(self).insert_pre(page_id.0, depth as nat, lo, hi, key@) && old(self).fits_under(
                page_id.0,
                depth as nat,
                key@,
                value@,
            ) ==> !(r matches Ok(Some(_))),
            old(self).insert_pre(page_id.0, depth as nat, lo, hi, key@)
                && old(self).pages_to_be_had(depth as nat) ==> (r is Ok ==> final(self).took_pages_since(old(self), depth as nat)),
            old(self).insert_pre(page_id.0, depth as nat, lo, hi, key@) && way_in(
                old(self).pool().store(),
                page_id.0,
                depth as nat,
                key@,
                spec_encode_leaf(key@, value@).len(),
            ) is Some ==> (r matches Ok(res) ==> Some(Self::passed_up(res)) == way_in(
                old(self).pool().store(),
                page_id.0,
                depth as nat,
                key@,
                spec_encode_leaf(key@, value@).len(),
            )),
            old(self).insert_pre(page_id.0, depth as nat, lo, hi, key@) && old(self).able()
                && old(self).pages_to_be_had(depth as nat) && way_in(
                old(self).pool().store(),
                page_id.0,
                depth as nat,
                key@,
                spec_encode_leaf(key@, value@).len(),
            ) is Some ==> r is Ok,
            old(self).insert_pre(page_id.0, depth as nat, lo, hi, key@) ==> (r matches Ok(res)
                ==> final(self).insert_post(
                old(self).pool().store(),
                old(self).pool().disk().header_view(),
                old(self).pool().disk().free_pages(),
                page_id.0,
                depth as nat,
                lo,
                hi,
                key@,
                value@,
                res,
            )),
        decreases depth,
    {
        let ghost s = self.pool().store();
        let ghost h0 = self.pool().disk().header_view();
        let ghost f0 = self.pool().disk().free_pages();
        let ghost fresh = not_in_use(h0.page_count, f0);
        let ghost h = depth as nat;
        let ghost sound = self.insert_pre(page_id.0, h, lo, hi, key@);
        if depth == 0 {
            return Err(StorageError::corruption("the tree is deeper than its height"));
        }
        proof {
            if sound {
                assert(in_subtree(s, page_id.0, h, page_id.0));
                assert(self.page_ok(page_id.0));
            }
        }
        let page = match self.load(page_id) {
            Ok(page) => page,
            Err(e) => {
                proof {
                    if sound {
                        self.lemma_nothing_written(old(self), page_id.0, h, lo, hi, key@, value@);
                    }
                }
                return Err(e);
            },
        };
        proof {
            page.lemma_wf();
            if depth >= 2 {
                lemma_subtree_children(s, page_id.0, h, lo, hi);
            }
        }
        if page.is_leaf() {
            // Insert into leaf.
            let r = self.insert_into_leaf(page_id, page, key, value, Ghost(lo), Ghost(hi));
            proof {
                if sound && r is Err {
                    self.lemma_nothing_written(old(self), page_id.0, h, lo, hi, key@, value@);
                }
            }
            return r;
        }
        // Interior node - find child.
        let child_id = match page.find_child(key) {
            Ok(child_id) => child_id,
            Err(e) => {
                proof {
                    if sound {
                        self.lemma_nothing_written(old(self), page_id.0, h, lo, hi, key@, value@);
                    }
                }
                return Err(e);
            },
        };
        let ghost j = child_slot(page@.cells, key@) as int;
        let ghost clo = child_lo(page@, j, lo);
        let ghost chi = child_hi(page@, j, hi);
        proof {
            lemma_child_slot(page@.cells, key@);
            if sound {
                lemma_route(page@, key@, lo, hi);
                assert(child_id.0 == child_of(page@, j));
                assert forall|x: u32| #[trigger]
                    in_subtree(s, child_id.0, (depth - 1) as nat, x) implies self.page_ok(x) by {
                    assert(in_subtree(s, page_id.0, h, x));
                }
            }
        }
        // Recursive insert into child.
        let result = match self.insert_recursive(
            child_id,
            key,
            value,
            depth - 1,
            Ghost(clo),
            Ghost(chi),
        ) {
            Ok(result) => result,
            Err(e) => {
                proof {
                    if sound {
                        assert(page@ == page_at(s, page_id.0));
                        self.lemma_child_failed(old(self), page_id.0, h, lo, hi, key@, value@);
                    }
                }
                return Err(e);
            },
        };
        // Handle child split.
        match result {
            Some((separator, new_child_id)) => {
                let ghost mid = *self;
                proof {
                    if sound {
                        let t = self.pool().store();
                        assert(in_subtree(s, page_id.0, h, page_id.0));
                        assert(!in_subtree(s, child_id.0, (depth - 1) as nat, page_id.0));
                        assert(t.contains_key(page_id.0) == s.contains_key(page_id.0));
                        assert(t[page_id.0] == s[page_id.0]);
                        assert(old(self).page_ok(page_id.0));
                        assert(page@ == page_at(s, page_id.0));
                        assert forall|x: u32| #[trigger]
                            in_subtree(s, page_id.0, h, x) implies is_allocated(
                            h0.page_count,
                            f0,
                            x,
                        ) && image_tidy(s[x]) by {
                            assert(old(self).page_ok(x));
                        }
                        mid.lemma_interior_unlinked(
                            s,
                            h0,
                            f0,
                            page_id.0,
                            h,
                            lo,
                            hi,
                            key@,
                            value@,
                            separator,
                            new_child_id,
                        );
                    }
                }
                let page = match self.load(page_id) {
                    Ok(page) => page,
                    Err(e) => {
                        proof {
                            if sound {
                                self.lemma_fail_post_kept(
                                    &mid,
                                    s,
                                    h0,
                                    f0,
                                    page_id.0,
                                    h,
                                    lo,
                                    hi,
                                    key@,
                                    value@,
                                );
                            }
                        }
                        return Err(e);
                    },
                };
                let r = self.insert_into_interior(
                    page_id,
                    page,
                    separator,
                    new_child_id,
                    Ghost(s),
                    Ghost(h0),
                    Ghost(f0),
                    Ghost(h),
                    Ghost(lo),
                    Ghost(hi),
                    Ghost(key@),
                    Ghost(value@),
                );
                proof {
                    if sound && r is Err {
                        self.lemma_fail_post_kept(
                            &mid,
                            s,
                            h0,
                            f0,
                            page_id.0,
                            h,
                            lo,
                            hi,
                            key@,
                            value@,
                        );
                    }
                }
                r
            },
            None => {
                proof {
                    if sound {
                        let t = self.pool().store();
                        assert forall|x: u32| #[trigger] in_subtree(s, page_id.0, h, x)
                            implies !fresh.contains(x) by {}
                        lemma_interior_plain(s, t, page_id.0, h, lo, hi, key@, value@, fresh);
                        assert forall|x: u32| #[trigger]
                            in_subtree(t, page_id.0, h, x) implies self.page_ok(x) by {
                            if in_subtree(s, page_id.0, h, x) && t[x] == s[x] {
                                assert(old(self).page_ok(x));
                            } else {
                                assert(in_subtree(t, child_id.0, (depth - 1) as nat, x));
                            }
                        }
                    }
                }
                Ok(None)
            },
        }
    }

    /// Insert into a leaf page: the value of a key that is present is
    /// replaced; a new cell goes in where it fits; else the page is split.
    ///
    /// A value that does not fit where the old one was makes the old cell
    /// go and the page be packed, and comes in as a new cell does.
    #[verifier::rlimit(100)]
    fn insert_into_leaf(
        &mut self,
        page_id: PageId,
        page: SlottedPage,
        key: &[u8],
        value: &[u8],
        Ghost(lo): Ghost<Bound>,
        Ghost(hi): Ghost<Bound>,
    ) -> (r: Result<Option<(Vec<u8>, PageId)>, StorageError>)
        requires
            old(self).wf(),
            page.wf(),
            key@.len() <= MAX_KEY_SIZE,
            value@.len() <= MAX_VALUE_SIZE,
        ensures
            final(self).wf(),
            final(self).keeps_means_of(old(self)),
            r is Err ==> final(self).quiet_since(old(self)),
            final(self).root() == old(self).root(),
            final(self).spec_height() == old(self).spec_height(),
            r matches Ok(Some((separator, _))) ==> separator@.len() <= crate::types::PAGE_SIZE,
            old(self).insert_pre(page_id.0, 1, lo, hi, key@)
                && old(self).pool().store().contains_key(page_id.0)
                && page.image() == old(self).pool().store()[page_id.0] ==> (r matches Err(e)
                ==> old(self).hinders(e)),
            old(self).insert_pre(page_id.0, 1, lo, hi, key@)
                && old(self).pool().store().contains_key(
                page_id.0,
            ) && page.image() == old(self).pool().store()[page_id.0] && old(self).able()
                && Self::replaces(subtree_get(old(self).pool().store(), page_id.0, 1, key@), value@)
                ==> r matches Ok(None),
            old(self).insert_pre(page_id.0, 1, lo, hi, key@)
                && old(self).pool().store().contains_key(
                page_id.0,
            ) && page.image() == old(self).pool().store()[page_id.0] && old(self).able()
                && subtree_get(old(self).pool().store(), page_id.0, 1, key@) is None && has_room(
                old(self).pool().store(),
                page_id.0,
                1,
                key@,
                value@,
            ) ==> r matches Ok(None),
            old(self).insert_pre(page_id.0, 1, lo, hi, key@)
                && old(self).pool().store().contains_key(page_id.0)
                && page.image() == old(self).pool().store()[page_id.0]
                && old(self).fits_under(page_id.0, 1, key@, value@) ==> !(r matches Ok(Some(_))),
            old(self).page_to_be_had() ==> (r is Ok ==> final(self).took_pages_since(old(self), 1)),
            old(self).insert_pre(page_id.0, 1, lo, hi, key@)
                && old(self).pool().store().contains_key(page_id.0)
                && page.image() == old(self).pool().store()[page_id.0] && leaf_way(
                page@.cells,
                page.spec_header().spec_free_space() as nat,
                key@,
                spec_encode_leaf(key@, value@).len(),
            ) is Some ==> (r matches Ok(res) ==> Some(Self::passed_up(res)) == leaf_way(
                page@.cells,
                page.spec_header().spec_free_space() as nat,
                key@,
                spec_encode_leaf(key@, value@).len(),
            )),
            old(self).insert_pre(page_id.0, 1, lo, hi, key@)
                && old(self).pool().store().contains_key(page_id.0)
                && page.image() == old(self).pool().store()[page_id.0] && old(self).able()
                && old(self).page_to_be_had() && leaf_way(
                page@.cells,
                page.spec_header().spec_free_space() as nat,
                key@,
                spec_encode_leaf(key@, value@).len(),
            ) is Some ==> r is Ok,
            old(self).insert_pre(page_id.0, 1, lo, hi, key@)
                && old(self).pool().store().contains_key(page_id.0)
                && page.image() == old(self).pool().store()[page_id.0] ==> (r matches Ok(res)
                ==> final(self).insert_post(
                old(self).pool().store(),
                old(self).pool().disk().header_view(),
                old(self).pool().disk().free_pages(),
                page_id.0,
                1,
                lo,
                hi,
                key@,
                value@,
                res,
            )),
    {
        let ghost s = self.pool().store();
        let ghost sound = self.insert_pre(page_id.0, 1, lo, hi, key@) && s.contains_key(page_id.0)
            && page.image() == s[page_id.0];
        let mut page = page;
        let ghost cells = page@.cells;
        let ghost easy = sound && Self::replaces(subtree_get(s, page_id.0, 1, key@), value@);
        let cell = Cell::new_leaf(slice_to_vec(key), slice_to_vec(value));
        let cell_size = cell.encoded_size();
        proof {
            page.lemma_wf();
            page.lemma_tidy();
            if sound {
                assert(in_subtree(s, page_id.0, 1, page_id.0));
                assert(page.tidy());
                assert(page_at(s, page_id.0) == page@);
            }
        }
        // Check if key already exists.
        let found = match page.search(key) {
            Ok(found) => found,
            Err(e) => {
                return Err(e);
            },
        };
        match found {
            Some(idx) => {
                proof {
                    crate::btree::model::lemma_leaf_way_at(cells, idx as int, key@);
                }
                // Update existing.
                match page.update_cell(idx, value) {
                    Ok(()) => {
                        let ghost image = page.image();
                        proof {
                            page.lemma_wf();
                            page.lemma_tidy();
                        }
                        return match self.save(page_id, page) {
                            Ok(()) => {
                                proof {
                                    if sound {
                                        let t = self.pool().store();
                                        let c = leaf_view(cells[idx as int].key, value@);
                                        assert(page_at(t, page_id.0).cells == cells.update(
                                            idx as int,
                                            c,
                                        ));
                                        assert forall|i: int|
                                            0 <= i < page_at(
                                                t,
                                                page_id.0,
                                            ).cells.len() implies above(
                                            lo,
                                            (#[trigger] page_at(t, page_id.0).cells[i]).key,
                                        ) && below(page_at(t, page_id.0).cells[i].key, hi) by {
                                            assert(page_at(t, page_id.0).cells[i].key
                                                == cells[i].key);
                                            assert(above(lo, page_at(s, page_id.0).cells[i].key));
                                        }
                                        assert forall|k: Seq<u8>|
                                            #![trigger subtree_get(t, page_id.0, 1, k)]
                                            subtree_get(t, page_id.0, 1, k) == put_result(
                                                k,
                                                key@,
                                                value@,
                                                subtree_get(s, page_id.0, 1, k),
                                            ) by {
                                            lemma_leaf_get_update(cells, idx as int, c, k);
                                        }
                                        assert(in_subtree(s, page_id.0, 1, page_id.0));
                                    }
                                }
                                Ok(None)
                            },
                            Err(e) => Err(e),
                        };
                    },
                    Err(StorageError::PageFull { page_id: _, needed: _, available: _ }) => {},
                    Err(e) => {
                        return Err(e);
                    },
                }
                // The new cell does not fit where the old one was: the
                // old cell goes, the page is packed, and the new cell
                // comes in as on the insert path.
                match page.delete_cell(idx) {
                    Ok(_) => {},
                    Err(e) => {
                        return Err(e);
                    },
                }
                match page.defragment() {
                    Ok(()) => {},
                    Err(e) => {
                        return Err(e);
                    },
                }
                proof {
                    page.lemma_wf();
                    page.lemma_tidy();
                    if easy {
                        let held = cells[idx as int];
                        lemma_leaf_get_at(cells, idx as int);
                        assert(held == leaf_view(held.key, held.value));
                        crate::types::varint::lemma_encode_len_monotone(
                            value@.len(),
                            held.value.len(),
                        );
                        crate::page::slotted::lemma_cells_size_remove(cells, idx as int);
                        assert(crate::page::cell::spec_encode_cell(cell@).len()
                            <= crate::page::cell::spec_encode_cell(held).len());
                        assert(page.spec_free_space() >= crate::page::cell::spec_encode_cell(
                            cell@,
                        ).len());
                    }
                    if sound {
                        let w = cells.remove(idx as int);
                        assert(page@.cells == w);
                        assert forall|i: int| 0 <= i < w.len() implies (#[trigger] w[i]).key
                            != key@ && above(lo, w[i].key) && below(w[i].key, hi) by {
                            let src = if i < idx { i } else { i + 1 };
                            assert(w[i] == cells[src]);
                            assert(above(lo, page_at(s, page_id.0).cells[src].key));
                            if src < idx {
                                assert(key_lt(cells[src].key, cells[idx as int].key));
                            } else {
                                assert(key_lt(cells[idx as int].key, cells[src].key));
                            }
                            crate::types::key_order::lemma_key_lt_irreflexive(key@);
                        }
                        assert forall|k: Seq<u8>|
                            #![trigger leaf_get(w, k)]
                            put_result(k, key@, value@, leaf_get(w, k)) == put_result(
                                k,
                                key@,
                                value@,
                                subtree_get(s, page_id.0, 1, k),
                            ) by {
                            lemma_leaf_get_remove(cells, idx as int, k);
                        }
                    }
                }
                match self.insert_new_into_leaf(page_id, page, cell, Ghost(lo), Ghost(hi)) {
                    Ok(res) => Ok(res),
                    Err(StorageError::PageFull { page_id: _, needed: _, available: _ }) => Err(
                        StorageError::invalid_operation(
                            "the new value does not fit in the page of its key",
                        ),
                    ),
                    Err(e) => Err(e),
                }
            },
            None => {
                proof {
                    if sound {
                        assert forall|i: int| 0 <= i < cells.len() implies above(
                            lo,
                            (#[trigger] cells[i]).key,
                        ) && below(cells[i].key, hi) by {
                            assert(above(lo, page_at(s, page_id.0).cells[i].key));
                        }
                    }
                }
                self.insert_new_into_leaf(page_id, page, cell, Ghost(lo), Ghost(hi))
            },
        }
    }

    /// Insert a cell of a new key into the working copy of a leaf: in
    /// place where it fits, else by splitting the page.
    #[verifier::rlimit(100)]
    fn insert_new_into_leaf(
        &mut self,
        page_id: PageId,
        page: SlottedPage,
        cell: Cell,
        Ghost(lo): Ghost<Bound>,
        Ghost(hi): Ghost<Bound>,
    ) -> (r: Result<Option<(Vec<u8>, PageId)>, StorageError>)
        requires
            old(self).wf(),
            page.wf(),
            cell.key@.len() <= MAX_KEY_SIZE,
            cell.value@.len() <= MAX_VALUE_SIZE,
        ensures
            final(self).wf(),
            final(self).keeps_means_of(old(self)),
            r is Err ==> final(self).quiet_since(old(self)),
            final(self).root() == old(self).root(),
            final(self).spec_height() == old(self).spec_height(),
            r matches Ok(Some((separator, _))) ==> separator@.len() <= crate::types::PAGE_SIZE,
            old(self).leaf_ready(page, cell, page_id.0, lo, hi) ==> (r matches Err(e)
                ==> old(self).hinders(e)),
            old(self).leaf_ready(page, cell, page_id.0, lo, hi) && old(self).able()
                && page.spec_free_space() >= crate::page::cell::spec_encode_cell(cell@).len()
                ==> r matches Ok(None),
            page.spec_free_space() >= crate::page::cell::spec_encode_cell(cell@).len() ==> !(
            r matches Ok(Some(_))),
            page.spec_free_space() < crate::page::cell::spec_encode_cell(cell@).len() ==> !(
            r matches Ok(None)),
            old(self).page_to_be_had() ==> (r is Ok ==> final(self).took_pages_since(old(self), 1)),
            old(self).leaf_ready(page, cell, page_id.0, lo, hi) ==> (r matches Ok(
                Some((separator, _)),
            ) ==> separator@ == split_key(page@.cells)),
            old(self).page_to_be_had() ==> (r matches Ok(Some(_)) ==> final(self).took_a_page_since(old(self))),
            old(self).leaf_ready(page, cell, page_id.0, lo, hi) && old(self).able()
                && old(self).page_to_be_had() && leaf_split_takes(
                page@.cells,
                cell.key@,
                crate::page::cell::spec_encode_cell(cell@).len(),
            ) ==> r is Ok,
            old(self).leaf_ready(page, cell, page_id.0, lo, hi) ==> (r matches Ok(res)
                ==> final(self).insert_post(
                old(self).pool().store(),
                old(self).pool().disk().header_view(),
                old(self).pool().disk().free_pages(),
                page_id.0,
                1,
                lo,
                hi,
                cell.key@,
                cell.value@,
                res,
            )),
    {
        let ghost s = self.pool().store();
        let ghost ready = self.leaf_ready(page, cell, page_id.0, lo, hi);
        let ghost cells = page@.cells;
        let mut page = page;
        let cell_size = cell.encoded_size();
        // Check if we have space.
        if page.can_fit(cell_size) {
            proof {
                page.lemma_wf();
            }
            let pos = match page.insert_cell(&cell) {
                Ok(pos) => pos,
                Err(e) => {
                    return Err(e);
                },
            };
            proof {
                page.lemma_wf();
                page.lemma_tidy();
                if ready {
                    assert(in_subtree(s, page_id.0, 1, page_id.0));
                    assert(self.page_ok(page_id.0));
                }
            }
            return match self.save(page_id, page) {
                Ok(()) => {
                    proof {
                        if ready {
                            let t = self.pool().store();
                            let w = cells.insert(pos as int, cell@);
                            assert(page_at(t, page_id.0).cells == w);
                            assert forall|i: int| 0 <= i < w.len() implies above(
                                lo,
                                (#[trigger] w[i]).key,
                            ) && below(w[i].key, hi) by {
                                if i != pos {
                                    assert(w[i] == cells[if i < pos { i } else { i - 1 }]);
                                }
                            }
                            assert forall|k: Seq<u8>|
                                #![trigger subtree_get(t, page_id.0, 1, k)]
                                subtree_get(t, page_id.0, 1, k) == put_result(
                                    k,
                                    cell.key@,
                                    cell.value@,
                                    subtree_get(s, page_id.0, 1, k),
                                ) by {
                                lemma_leaf_get_insert(cells, pos as int, cell@, k);
                                assert(put_result(k, cell.key@, cell.value@, leaf_get(cells, k))
                                    == put_result(
                                    k,
                                    cell.key@,
                                    cell.value@,
                                    subtree_get(s, page_id.0, 1, k),
                                ));
                            }
                            assert(in_subtree(s, page_id.0, 1, page_id.0));
                        }
                    }
                    Ok(None)
                },
                Err(e) => Err(e),
            };
        }
        // Need to split.
        match self.split_and_insert_leaf(page_id, page, cell, Ghost(lo), Ghost(hi)) {
            Ok(split) => Ok(Some(split)),
            Err(e) => Err(e),
        }
    }

    /// Split a leaf page and insert a cell: the cell goes to the page
    /// that keeps the keys below the separator if its key is below it,
    /// else to the new page. Nothing is changed unless both pages can be
    /// written, and the page that stays holds a cell.
    #[verifier::rlimit(100)]
    fn split_and_insert_leaf(
        &mut self,
        page_id: PageId,
        page: SlottedPage,
        cell: Cell,
        Ghost(lo): Ghost<Bound>,
        Ghost(hi): Ghost<Bound>,
    ) -> (r: Result<(Vec<u8>, PageId), StorageError>)
        requires
            old(self).wf(),
            page.wf(),
            cell.key@.len() <= MAX_KEY_SIZE,
            cell.value@.len() <= MAX_VALUE_SIZE,
        ensures
            final(self).wf(),
            final(self).keeps_means_of(old(self)),
            r is Err ==> final(self).quiet_since(old(self)),
            final(self).root() == old(self).root(),
            final(self).spec_height() == old(self).spec_height(),
            r matches Ok((separator, _)) ==> separator@.len() <= crate::types::PAGE_SIZE,
            old(self).leaf_ready(page, cell, page_id.0, lo, hi) ==> (r matches Err(e)
                ==> old(self).hinders(e)),
            old(self).leaf_ready(page, cell, page_id.0, lo, hi) ==> (r matches Ok((separator, _))
                ==> separator@ == split_key(page@.cells)),
            old(self).page_to_be_had() ==> (r is Ok ==> final(self).took_a_page_since(old(self))),
            old(self).leaf_ready(page, cell, page_id.0, lo, hi) && old(self).able()
                && old(self).page_to_be_had() && leaf_split_takes(
                page@.cells,
                cell.key@,
                crate::page::cell::spec_encode_cell(cell@).len(),
            ) ==> r is Ok,
            old(self).leaf_ready(page, cell, page_id.0, lo, hi) ==> (r matches Ok(res)
                ==> final(self).insert_post(
                old(self).pool().store(),
                old(self).pool().disk().header_view(),
                old(self).pool().disk().free_pages(),
                page_id.0,
                1,
                lo,
                hi,
                cell.key@,
                cell.value@,
                Some(res),
            )),
    {
        let ghost s = self.pool().store();
        let ghost ready = self.leaf_ready(page, cell, page_id.0, lo, hi);
        let ghost cells = page@.cells;
        let ghost mid = (cells.len() / 2) as int;
        let mut page = page;
        proof {
            page.lemma_wf();
        }
        let (mut new_page, separator) = match page.split() {
            Ok(halves) => halves,
            Err(e) => {
                return Err(e);
            },
        };
        proof {
            page.lemma_wf();
            new_page.lemma_wf();
            lemma_key_trichotomy(cell.key@, separator@);
            if ready {
                assert(cells[mid].key != cell.key@);
                let size = crate::page::cell::spec_encode_cell(cell@).len();
                if leaf_split_takes(cells, cell.key@, size) {
                    if key_lt(cell.key@, separator@) {
                        crate::page::slotted::lemma_packed_room(page@, size);
                    } else {
                        crate::page::slotted::lemma_packed_room(new_page@, size);
                    }
                }
            }
        }
        // Determine which page gets the new cell.
        let to_left = key_less(cell.key.as_slice(), separator.as_slice());
        let inserted = if to_left {
            page.insert_cell(&cell)
        } else {
            new_page.insert_cell(&cell)
        };
        let pos = match inserted {
            Ok(pos) => pos,
            Err(e) => {
                return Err(e);
            },
        };
        if page.cell_count() == 0 {
            return Err(
                StorageError::PageFull {
                    page_id,
                    needed: cell.encoded_size() + 2,
                    available: page.free_space(),
                },
            );
        }
        let ghost left = page@.cells;
        let ghost right = new_page@.cells;
        let ghost image_left = page.image();
        let ghost image_right = new_page.image();
        proof {
            page.lemma_wf();
            new_page.lemma_wf();
            page.lemma_tidy();
            new_page.lemma_tidy();
        }
        // Write the new page, then the page that was split.
        let new_page_id = match self.install(new_page) {
            Ok(new_page_id) => new_page_id,
            Err(e) => {
                return Err(e);
            },
        };
        proof {
            if ready {
                assert(in_subtree(s, page_id.0, 1, page_id.0));
                assert(old(self).page_ok(page_id.0));
                assert(new_page_id.0 != page_id.0);
            }
        }
        match self.save(page_id, page) {
            Ok(()) => {
                proof {
                    if ready {
                        let t = self.pool().store();
                        let fresh = not_in_use(
                            old(self).pool().disk().header_view().page_count,
                            old(self).pool().disk().free_pages(),
                        );
                        assert(in_subtree(s, page_id.0, 1, page_id.0));
                        assert(t == s.insert(new_page_id.0, image_right).insert(
                            page_id.0,
                            image_left,
                        ));
                        lemma_leaf_split_commit(
                            s,
                            t,
                            page_id.0,
                            new_page_id.0,
                            lo,
                            hi,
                            cells,
                            mid,
                            cell@,
                            pos as int,
                            fresh,
                        );
                    }
                }
                Ok((separator, new_page_id))
            },
            Err(e) => Err(e),
        }
    }

    /// Insert a separator and the page of the keys from it on into an
    /// interior page; the page is split where the cell does not fit.
    #[verifier::rlimit(100)]
    fn insert_into_interior(
        &mut self,
        page_id: PageId,
        page: SlottedPage,
        separator: Vec<u8>,
        new_child_id: PageId,
        Ghost(s): Ghost<Store>,
        Ghost(h0): Ghost<FileHeader>,
        Ghost(f0): Ghost<Seq<PageId>>,
        Ghost(h): Ghost<nat>,
        Ghost(lo): Ghost<Bound>,
        Ghost(hi): Ghost<Bound>,
        Ghost(key): Ghost<Seq<u8>>,
        Ghost(value): Ghost<Seq<u8>>,
    ) -> (r: Result<Option<(Vec<u8>, PageId)>, StorageError>)
        requires
            old(self).wf(),
            page.wf(),
            separator@.len() <= crate::types::PAGE_SIZE,
        ensures
            final(self).wf(),
            final(self).keeps_means_of(old(self)),
            r is Err ==> final(self).quiet_since(old(self)),
            final(self).root() == old(self).root(),
            final(self).spec_height() == old(self).spec_height(),
            r matches Ok(Some((separator, _))) ==> separator@.len() <= crate::types::PAGE_SIZE,
            old(self).interior_ready(
                page,
                s,
                h0,
                f0,
                page_id.0,
                h,
                lo,
                hi,
                key,
                value,
                separator@,
                new_child_id.0,
            ) ==> (r matches Err(e) ==> old(self).hinders(e)),
            old(self).interior_ready(
                page,
                s,
                h0,
                f0,
                page_id.0,
                h,
                lo,
                hi,
                key,
                value,
                separator@,
                new_child_id.0,
            ) && old(self).able() && separator_fits(page.image(), separator@) ==> r matches Ok(
                None,
            ),
            page.wf() ==> (r matches Ok(res) ==> Self::passed_up(res) == (if separator_fits(
                page.image(),
                separator@,
            ) {
                None
            } else {
                Some(split_key(page@.cells))
            })),
            old(self).page_to_be_had() ==> (r is Ok ==> final(self).took_pages_since(old(self), 1)),
            old(self).interior_ready(
                page,
                s,
                h0,
                f0,
                page_id.0,
                h,
                lo,
                hi,
                key,
                value,
                separator@,
                new_child_id.0,
            ) && old(self).able() && old(self).page_to_be_had() && interior_split_takes(
                page@.cells,
                separator@,
            ) ==> r is Ok,
            old(self).interior_ready(
                page,
                s,
                h0,
                f0,
                page_id.0,
                h,
                lo,
                hi,
                key,
                value,
                separator@,
                new_child_id.0,
            ) ==> (r matches Ok(res) ==> final(self).insert_post(
                s,
                h0,
                f0,
                page_id.0,
                h,
                lo,
                hi,
                key,
                value,
                res,
            )),
    {
        let ghost t = self.pool().store();
        let ghost ready = self.interior_ready(
            page,
            s,
            h0,
            f0,
            page_id.0,
            h,
            lo,
            hi,
            key,
            value,
            separator@,
            new_child_id.0,
        );
        let ghost fresh = not_in_use(h0.page_count, f0);
        let ghost v = page_at(s, page_id.0);
        let ghost sep = separator@;
        let ghost j = child_slot(v.cells, key) as int;
        let mut page = page;
        let cell = Cell::new_interior(separator, new_child_id);
        let cell_size = cell.encoded_size();
        proof {
            page.lemma_wf();
            if ready {
                assert forall|x: u32| #[trigger] in_subtree(s, page_id.0, h, x)
                    implies !fresh.contains(x) by {}
                crate::btree::model::lemma_child_was_split(
                    s,
                    t,
                    page_id.0,
                    h,
                    lo,
                    hi,
                    key,
                    value,
                    sep,
                    new_child_id.0,
                    fresh,
                );
                lemma_subtree_children(s, page_id.0, h, lo, hi);
                lemma_child_slot(v.cells, key);
                assert(page@ == v);
                assert(in_subtree(s, page_id.0, h, page_id.0));
                page.lemma_tidy();
                assert(page.tidy());
            }
        }
        if page.can_fit(cell_size) {
            let pos = match page.insert_cell(&cell) {
                Ok(pos) => pos,
                Err(e) => {
                    return Err(e);
                },
            };
            proof {
                page.lemma_wf();
                page.lemma_tidy();
                if ready {
                    lemma_separator_position(v.cells, j, pos as int, sep);
                    if pos < v.cells.len() {
                        lemma_key_trichotomy(sep, v.cells[pos as int].key);
                    }
                    assert(pos == j);
                    assert(cell@ == interior_view(sep, new_child_id));
                    assert(page@ == with_separator(v, j, sep, new_child_id.0));
                }
            }
            return match self.save(page_id, page) {
                Ok(()) => {
                    proof {
                        if ready {
                            let u = self.pool().store();
                            assert(page_at(u, page_id.0) == with_separator(
                                v,
                                j,
                                sep,
                                new_child_id.0,
                            ));
                            assert forall|x: u32| #[trigger] in_subtree(s, page_id.0, h, x)
                                implies !fresh.contains(x) by {}
                            lemma_interior_fits(
                                s,
                                t,
                                u,
                                page_id.0,
                                h,
                                lo,
                                hi,
                                key,
                                value,
                                sep,
                                new_child_id.0,
                                fresh,
                            );
                            assert forall|x: u32| #[trigger]
                                in_subtree(u, page_id.0, h, x) implies self.page_ok(x) by {
                                if x == page_id.0 {
                                    assert(in_subtree(s, page_id.0, h, x));
                                } else if in_subtree(s, page_id.0, h, x) && u[x] == s[x] {
                                    assert(is_allocated(h0.page_count, f0, x));
                                } else {
                                    assert(old(self).page_ok(x));
                                }
                            }
                        }
                    }
                    Ok(None)
                },
                Err(e) => Err(e),
            };
        }
        // Need to split interior node.
        match self.split_and_insert_interior(
            page_id,
            page,
            cell,
            Ghost(s),
            Ghost(h0),
            Ghost(f0),
            Ghost(h),
            Ghost(lo),
            Ghost(hi),
            Ghost(key),
            Ghost(value),
        ) {
            Ok(split) => Ok(Some(split)),
            Err(e) => Err(e),
        }
    }

    /// Split an interior page and insert a cell: the separator in the
    /// middle moves up, and the cell goes to the page on its side of it.
    /// Nothing is changed unless both pages can be written.
    #[verifier::rlimit(100)]
    fn split_and_insert_interior(
        &mut self,
        page_id: PageId,
        page: SlottedPage,
        cell: Cell,
        Ghost(s): Ghost<Store>,
        Ghost(h0): Ghost<FileHeader>,
        Ghost(f0): Ghost<Seq<PageId>>,
        Ghost(h): Ghost<nat>,
        Ghost(lo): Ghost<Bound>,
        Ghost(hi): Ghost<Bound>,
        Ghost(key): Ghost<Seq<u8>>,
        Ghost(value): Ghost<Seq<u8>>,
    ) -> (r: Result<(Vec<u8>, PageId), StorageError>)
        requires
            old(self).wf(),
            page.wf(),
            cell.key@.len() <= crate::types::PAGE_SIZE,
            cell.value@.len() == 0,
        ensures
            final(self).wf(),
            final(self).keeps_means_of(old(self)),
            r is Err ==> final(self).quiet_since(old(self)),
            final(self).root() == old(self).root(),
            final(self).spec_height() == old(self).spec_height(),
            r matches Ok((separator, _)) ==> separator@.len() <= crate::types::PAGE_SIZE,
            cell.cell_type == CellType::Interior && old(self).interior_ready(
                page,
                s,
                h0,
                f0,
                page_id.0,
                h,
                lo,
                hi,
                key,
                value,
                cell.key@,
                cell.left_child.0,
            ) ==> (r matches Err(e) ==> old(self).hinders(e)),
            r matches Ok((separator, _)) ==> separator@ == split_key(page@.cells),
            old(self).page_to_be_had() ==> (r is Ok ==> final(self).took_a_page_since(old(self))),
            cell.cell_type == CellType::Interior && old(self).interior_ready(
                page,
                s,
                h0,
                f0,
                page_id.0,
                h,
                lo,
                hi,
                key,
                value,
                cell.key@,
                cell.left_child.0,
            ) && old(self).able() && old(self).page_to_be_had() && interior_split_takes(
                page@.cells,
                cell.key@,
            ) ==> r is Ok,
            cell.cell_type == CellType::Interior && old(self).interior_ready(
                page,
                s,
                h0,
                f0,
                page_id.0,
                h,
                lo,
                hi,
                key,
                value,
                cell.key@,
                cell.left_child.0,
            ) ==> (r matches Ok(res) ==> final(self).insert_post(
                s,
                h0,
                f0,
                page_id.0,
                h,
                lo,
                hi,
                key,
                value,
                Some(res),
            )),
    {
        let ghost t = self.pool().store();
        let ghost ready = cell.cell_type == CellType::Interior && self.interior_ready(
            page,
            s,
            h0,
            f0,
            page_id.0,
            h,
            lo,
            hi,
            key,
            value,
            cell.key@,
            cell.left_child.0,
        );
        let ghost fresh = not_in_use(h0.page_count, f0);
        let ghost h1 = self.pool().disk().header_view();
        let ghost f1 = self.pool().disk().free_pages();
        let ghost v = page_at(s, page_id.0);
        let ghost sep = cell.key@;
        let ghost new_id = cell.left_child.0;
        let ghost j = child_slot(v.cells, key) as int;
        let ghost mid = (v.cells.len() / 2) as int;
        let mut page = page;
        proof {
            page.lemma_wf();
            if ready {
                assert forall|x: u32| #[trigger] in_subtree(s, page_id.0, h, x)
                    implies !fresh.contains(x) by {}
                crate::btree::model::lemma_child_was_split(
                    s,
                    t,
                    page_id.0,
                    h,
                    lo,
                    hi,
                    key,
                    value,
                    sep,
                    new_id,
                    fresh,
                );
                lemma_subtree_children(s, page_id.0, h, lo, hi);
                lemma_child_slot(v.cells, key);
                assert(page@ == v);
            }
        }
        let (page, new_page, separator, Ghost(m)) = match Self::split_with_cell(
            page,
            &cell,
            Ghost(j),
        ) {
            Ok(halves) => halves,
            Err(e) => {
                return Err(e);
            },
        };
        let ghost image_left = page.image();
        let ghost image_right = new_page.image();
        proof {
            page.lemma_wf();
            new_page.lemma_wf();
            page.lemma_tidy();
            new_page.lemma_tidy();
            if ready {
                crate::btree::model::lemma_subtree_children(s, page_id.0, h, lo, hi);
            }
        }
        // Write the new page, then the page that was split.
        let new_page_id = match self.install(new_page) {
            Ok(new_page_id) => new_page_id,
            Err(e) => {
                return Err(e);
            },
        };
        match self.save(page_id, page) {
            Ok(()) => {
                proof {
                    if ready {
                        let u = self.pool().store();
                        assert(u == t.insert(new_page_id.0, image_right).insert(
                            page_id.0,
                            image_left,
                        ));
                        Self::lemma_interior_split_post(
                            *old(self),
                            *self,
                            s,
                            h0,
                            f0,
                            page_id.0,
                            new_page_id.0,
                            h,
                            lo,
                            hi,
                            key,
                            value,
                            sep,
                            new_id,
                            m,
                            separator,
                        );
                    }
                }
                Ok((separator, new_page_id))
            },
            Err(e) => Err(e),
        }
    }

    /// Split an interior page in the middle and put `cell` into the half
    /// on its side of the separator that moves up.
    ///
    /// Where the separator of `cell` lies between the separators around
    /// slot `j` of the page, the halves are those of the page with the
    /// cell put in at slot `j`.
    #[verifier::rlimit(100)]
    fn split_with_cell(page: SlottedPage, cell: &Cell, Ghost(j): Ghost<int>) -> (r: Result<
        (SlottedPage, SlottedPage, Vec<u8>, Ghost<int>),
        StorageError,
    >)
        requires
            page.wf(),
            cell.key@.len() <= crate::types::PAGE_SIZE,
            cell.value@.len() == 0,
        ensures
            r matches Err(e) ==> e is PageFull || e is InvalidOperation,
            r matches Ok((_, _, separator, _)) ==> separator@ == split_key(page@.cells),
            cell.cell_type == CellType::Interior && page@.page_type.spec_is_interior()
                && interior_split_takes(page@.cells, cell.key@) ==> r is Ok,
            r matches Ok((left, right, separator, m)) ==> {
                &&& left.wf()
                &&& right.wf()
                &&& left.tidy()
                &&& right.tidy()
                &&& separator@.len() <= crate::types::PAGE_SIZE
                &&& cell.cell_type == CellType::Interior && page@.page_type.spec_is_interior() && 0
                    <= j <= page@.cells.len() && (j > 0 ==> key_lt(
                    page@.cells[j - 1].key,
                    cell.key@,
                )) && (j < page@.cells.len() ==> key_lt(cell.key@, page@.cells[j].key))
                    ==> is_split_of(
                    with_separator(page@, j, cell.key@, cell.left_child.0),
                    m@,
                    left@,
                    right@,
                ) && separator@ == with_separator(
                    page@,
                    j,
                    cell.key@,
                    cell.left_child.0,
                ).cells[m@].key
            },
    {
        let ghost v = page@;
        let ghost sep = cell.key@;
        let ghost new_id = cell.left_child.0;
        let ghost fits = cell.cell_type == CellType::Interior && v.page_type.spec_is_interior() && 0
            <= j <= v.cells.len() && (j > 0 ==> key_lt(v.cells[j - 1].key, sep)) && (j
            < v.cells.len() ==> key_lt(sep, v.cells[j].key));
        let mut page = page;
        proof {
            page.lemma_wf();
        }
        let (mut new_page, separator) = match page.split() {
            Ok(halves) => halves,
            Err(e) => {
                return Err(e);
            },
        };
        let ghost half_left = page@;
        let ghost half_right = new_page@;
        proof {
            page.lemma_wf();
            new_page.lemma_wf();
        }
        // Determine which page gets the new cell.
        let to_left = key_less(cell.key.as_slice(), separator.as_slice());
        let inserted = if to_left {
            page.insert_cell(cell)
        } else {
            new_page.insert_cell(cell)
        };
        let pos = match inserted {
            Ok(pos) => pos,
            Err(e) => {
                return Err(e);
            },
        };
        let ghost mut m: int = 0;
        proof {
            page.lemma_wf();
            new_page.lemma_wf();
            if fits {
                let mid = (v.cells.len() / 2) as int;
                let half = if to_left { half_left.cells } else { half_right.cells };
                crate::btree::model::lemma_between_separators(v.cells, j, sep);
                assert forall|i: int| 0 <= i < half.len() implies (#[trigger] half[i]).key
                    != sep by {
                    if to_left {
                        assert(half[i] == v.cells[i]);
                    } else {
                        assert(half[i] == v.cells[i + mid + 1]);
                    }
                }
                assert(cell@ == interior_view(sep, PageId(new_id)));
                m = crate::btree::model::lemma_halves(
                    v,
                    j,
                    sep,
                    new_id,
                    pos as int,
                    half_left,
                    half_right,
                    page@,
                    new_page@,
                );
            }
        }
        Ok((page, new_page, separator, Ghost(m)))
    }

    /// What the split of an interior page leaves, once both halves are
    /// in the store.
    proof fn lemma_interior_split_post(
        before: Self,
        after: Self,
        s: Store,
        h0: FileHeader,
        f0: Seq<PageId>,
        id: u32,
        other: u32,
        h: nat,
        lo: Bound,
        hi: Bound,
        key: Seq<u8>,
        value: Seq<u8>,
        sep: Seq<u8>,
        new_id: u32,
        m: int,
        separator: Vec<u8>,
    )
        requires
            h >= 2,
            subtree_wf(s, id, h, lo, hi),
            forall|x: u32| #[trigger]
                in_subtree(s, id, h, x) ==> is_allocated(h0.page_count, f0, x) && image_tidy(s[x]),
            grows(
                h0,
                f0,
                before.pool().disk().header_view(),
                before.pool().disk().free_pages(),
            ),
            inserted_split(
                s,
                before.pool().store(),
                child_for(page_at(s, id), key).0,
                (h - 1) as nat,
                child_lo(page_at(s, id), child_slot(page_at(s, id).cells, key) as int, lo),
                child_hi(page_at(s, id), child_slot(page_at(s, id).cells, key) as int, hi),
                key,
                value,
                sep,
                new_id,
                not_in_use(h0.page_count, f0),
            ),
            before.pages_in_use(child_for(page_at(s, id), key).0, (h - 1) as nat),
            before.pages_in_use(new_id, (h - 1) as nat),
            grows(
                before.pool().disk().header_view(),
                before.pool().disk().free_pages(),
                after.pool().disk().header_view(),
                after.pool().disk().free_pages(),
            ),
            other != 0,
            !is_allocated(
                before.pool().disk().header_view().page_count,
                before.pool().disk().free_pages(),
                other,
            ),
            is_allocated(
                after.pool().disk().header_view().page_count,
                after.pool().disk().free_pages(),
                other,
            ),
            after.pool().store().contains_key(id),
            after.pool().store().contains_key(other),
            crate::page::slotted::image_wf(after.pool().store()[id]),
            crate::page::slotted::image_wf(after.pool().store()[other]),
            image_tidy(after.pool().store()[id]),
            image_tidy(after.pool().store()[other]),
            is_split_of(
                with_separator(
                    page_at(s, id),
                    child_slot(page_at(s, id).cells, key) as int,
                    sep,
                    new_id,
                ),
                m,
                page_at(after.pool().store(), id),
                page_at(after.pool().store(), other),
            ),
            separator@ == with_separator(
                page_at(s, id),
                child_slot(page_at(s, id).cells, key) as int,
                sep,
                new_id,
            ).cells[m].key,
            forall|x: u32|
                x != id && x != other ==> (#[trigger] after.pool().store().contains_key(x)
                    == before.pool().store().contains_key(x)) && (
                before.pool().store().contains_key(x) ==> after.pool().store()[x]
                    == before.pool().store()[x]),
        ensures
            after.insert_post(
                s,
                h0,
                f0,
                id,
                h,
                lo,
                hi,
                key,
                value,
                Some((separator, PageId(other))),
            ),
    {
        let t = before.pool().store();
        let u = after.pool().store();
        let fresh = not_in_use(h0.page_count, f0);
        let h1 = before.pool().disk().header_view();
        let f1 = before.pool().disk().free_pages();
        let child = child_for(page_at(s, id), key).0;
        assert(in_subtree(s, id, h, id));
        assert(is_allocated(h0.page_count, f0, id));
        assert(is_allocated(h1.page_count, f1, id));
        assert forall|x: u32| #[trigger] in_subtree(s, id, h, x) implies !fresh.contains(x) by {}
        assert(!in_subtree(t, child, (h - 1) as nat, other)) by {
            if in_subtree(t, child, (h - 1) as nat, other) {
                assert(is_allocated(h1.page_count, f1, other));
            }
        }
        assert(!in_subtree(t, new_id, (h - 1) as nat, other)) by {
            if in_subtree(t, new_id, (h - 1) as nat, other) {
                assert(is_allocated(h1.page_count, f1, other));
            }
        }
        lemma_interior_split(s, t, u, id, other, h, lo, hi, key, value, sep, new_id, m, fresh);
        assert forall|x: u32| #[trigger] in_subtree(u, id, h, x) implies after.page_ok(x) by {
            if x == id {
            } else if in_subtree(s, id, h, x) && u[x] == s[x] {
                assert(is_allocated(h0.page_count, f0, x));
                assert(is_allocated(h1.page_count, f1, x));
            } else {
                assert(before.page_ok(x));
            }
        }
        assert forall|x: u32| #[trigger] in_subtree(u, other, h, x) implies after.page_ok(x) by {
            if x == other {
            } else if in_subtree(s, id, h, x) && u[x] == s[x] {
                assert(is_allocated(h0.page_count, f0, x));
                assert(is_allocated(h1.page_count, f1, x));
            } else {
                assert(before.page_ok(x));
            }
        }
    }

    /// Split the root, creating a new root: the old root becomes the
    /// child of its header, the new page the child of the separator. The
    /// tree grows by one level.
    #[verifier::rlimit(100)]
    fn split_root(
        &mut self,
        separator: Vec<u8>,
        new_child_id: PageId,
        Ghost(s): Ghost<Store>,
        Ghost(h0): Ghost<FileHeader>,
        Ghost(f0): Ghost<Seq<PageId>>,
        Ghost(key): Ghost<Seq<u8>>,
        Ghost(value): Ghost<Seq<u8>>,
    ) -> (r: Result<(), StorageError>)
        requires
            old(self).wf(),
            separator@.len() <= crate::types::PAGE_SIZE,
        ensures
            final(self).wf(),
            final(self).keeps_means_of(old(self)),
            final(self).spec_height() == old(self).spec_height() || final(self).spec_height()
                == old(self).spec_height() + 1,
            old(self).root().0 != 0 && old(self).spec_height() >= 1
                && h0.root_page == old(self).root() && h0.tree_height == old(self).spec_height()
                && old(self).insert_post(
                s,
                h0,
                f0,
                old(self).root().0,
                old(self).spec_height() as nat,
                None,
                None,
                key,
                value,
                Some((separator, new_child_id)),
            ) ==> (r matches Err(e) ==> old(self).hinders(e)),
            old(self).root().0 != 0 && old(self).spec_height() >= 1
                && h0.root_page == old(self).root() && h0.tree_height == old(self).spec_height()
                && old(self).insert_post(
                s,
                h0,
                f0,
                old(self).root().0,
                old(self).spec_height() as nat,
                None,
                None,
                key,
                value,
                Some((separator, new_child_id)),
            ) ==> (r is Ok ==> final(self).inv() && final(self).root() != old(self).root()
                && final(self)@ == tree_map(
                s,
                old(self).root().0,
                old(self).spec_height() as nat,
            ).insert(key, value)),
            old(self).root().0 != 0 && old(self).spec_height() >= 1
                && h0.root_page == old(self).root() && h0.tree_height == old(self).spec_height()
                && old(self).insert_post(
                s,
                h0,
                f0,
                old(self).root().0,
                old(self).spec_height() as nat,
                None,
                None,
                key,
                value,
                Some((separator, new_child_id)),
            ) ==> (r is Err ==> final(self).inv() && at_most_put(
                final(self)@,
                tree_map(s, old(self).root().0, old(self).spec_height() as nat),
                key,
                value,
            )),
            old(self).root().0 != 0 && old(self).spec_height() >= 1
                && h0.root_page == old(self).root() && h0.tree_height == old(self).spec_height()
                && old(self).insert_post(
                s,
                h0,
                f0,
                old(self).root().0,
                old(self).spec_height() as nat,
                None,
                None,
                key,
                value,
                Some((separator, new_child_id)),
            ) ==> (r is Ok ==> page_at(
                final(self).pool().store(),
                final(self).root().0,
            ) == (PageView {
                page_type: PageType::InteriorTable,
                right_child: old(self).root(),
                cells: seq![interior_view(separator@, new_child_id)],
            })),
            old(self).root().0 != 0 && old(self).spec_height() >= 1
                && h0.root_page == old(self).root() && h0.tree_height == old(self).spec_height()
                && old(self).insert_post(
                s,
                h0,
                f0,
                old(self).root().0,
                old(self).spec_height() as nat,
                None,
                None,
                key,
                value,
                Some((separator, new_child_id)),
            ) && old(self).able() && old(self).page_to_be_had()
                && old(self).spec_height() < 0xFFFF_FFFF && fresh_root_takes(separator@)
                ==> r is Ok,
            r is Ok ==> final(self).spec_height() == old(self).spec_height() + 1,
    {
        let ghost t = self.pool().store();
        let ghost h = self.height as nat;
        let ghost root = self.root_page.0;
        let ghost ready = root != 0 && h >= 1 && h0.root_page == self.root() && h0.tree_height
            == self.spec_height() && self.insert_post(
            s,
            h0,
            f0,
            root,
            h,
            None,
            None,
            key,
            value,
            Some((separator, new_child_id)),
        );
        let ghost h1 = self.pool().disk().header_view();
        let ghost f1 = self.pool().disk().free_pages();
        let ghost sep = separator@;
        let old_root_id = self.root_page;
        proof {
            if ready {
                crate::btree::model::lemma_failed_split(
                    s,
                    t,
                    root,
                    h,
                    None,
                    None,
                    key,
                    value,
                    sep,
                    new_child_id.0,
                    not_in_use(h0.page_count, f0),
                );
                self.lemma_failed_is_sound(s, h0, f0, key, value);
            }
        }
        if self.height >= 0xFFFF_FFFF {
            return Err(StorageError::invalid_operation("the tree cannot grow higher"));
        }
        // Create new root.
        let mut new_root = SlottedPage::new_interior();
        new_root.set_right_child(old_root_id);
        let cell = Cell::new_interior(separator, new_child_id);
        match new_root.insert_cell(&cell) {
            Ok(_) => {},
            Err(e) => {
                return Err(e);
            },
        }
        let ghost image = new_root.image();
        let ghost w = new_root@;
        proof {
            new_root.lemma_wf();
            new_root.lemma_tidy();
            assert(w.cells =~= seq![interior_view(sep, new_child_id)]);
        }
        let new_root_id = match self.install(new_root) {
            Ok(new_root_id) => new_root_id,
            Err(e) => {
                proof {
                    if ready {
                        self.lemma_fail_post_kept(
                            old(self),
                            s,
                            h0,
                            f0,
                            root,
                            h,
                            None,
                            None,
                            key,
                            value,
                        );
                        self.lemma_failed_is_sound(s, h0, f0, key, value);
                    }
                }
                return Err(e);
            },
        };
        self.root_page = new_root_id;
        self.height = self.height + 1;
        // Persist the new root to the file header.
        let flushed = match self.buffer_pool.set_root_page(new_root_id, self.height as u32) {
            Ok(()) => self.buffer_pool.flush_page(new_root_id),
            Err(e) => Err(e),
        };
        proof {
            if ready {
                let u = self.pool().store();
                let fresh = not_in_use(h0.page_count, f0);
                assert(u == t.insert(new_root_id.0, image));
                assert(!is_allocated(h1.page_count, f1, new_root_id.0));
                assert(in_subtree(t, root, h, root));
                assert(old(self).page_ok(root));
                assert(new_root_id.0 != root);
                lemma_root_split(
                    s,
                    t,
                    u,
                    root,
                    new_root_id.0,
                    h,
                    key,
                    value,
                    sep,
                    new_child_id.0,
                    fresh,
                );
                assert forall|x: u32| #[trigger]
                    in_subtree(u, new_root_id.0, h + 1, x) implies self.page_ok(x) by {
                    if x != new_root_id.0 {
                        assert(old(self).page_ok(x));
                    }
                }
                assert(self@ =~= tree_map(s, root, h).insert(key, value));
                assert(at_most_put(self@, tree_map(s, root, h), key, value));
            }
        }
        flushed
    }

    /// Delete a key from the tree.
    ///
    /// Returns true if the key was found and deleted. Pages are not
    /// merged: the height stays. In a sound tree the key is gone
    /// afterwards and every other key holds what it held; where the pool
    /// fails, the tree is as it was.
    pub fn delete(&mut self, key: &[u8]) -> (r: Result<bool, StorageError>)
        requires
            old(self).wf(),
        ensures
            final(self).wf(),
            final(self).keeps_means_of(old(self)),
            final(self).root() == old(self).root(),
            final(self).spec_height() == old(self).spec_height(),
            old(self).inv() ==> final(self).inv() && match r {
                Ok(found) => found == old(self)@.contains_key(key@)
                    && final(self)@ == old(self)@.remove(key@),
                Err(e) => old(self).excuses(e) && old(self).root().0 != 0
                    && final(self)@ == old(self)@,
            },
    {
        if self.root_page.value() == 0 {
            proof {
                if old(self).inv() {
                    assert(self@ =~= old(self)@.remove(key@));
                }
            }
            return Ok(false);
        }
        let root = self.root_page;
        let depth = self.height;
        let r = self.delete_recursive(root, key, depth, Ghost(None), Ghost(None));
        proof {
            if old(self).inv() {
                let s = old(self).pool().store();
                let t = self.pool().store();
                match r {
                    Ok(found) => {
                        assert forall|k: Seq<u8>|
                            subtree_get(t, root.0, depth as nat, k) == (if k == key@ {
                                None
                            } else {
                                subtree_get(s, root.0, depth as nat, k)
                            }) by {}
                        assert(self@ =~= old(self)@.remove(key@));
                    },
                    Err(_) => {
                        assert(self@ =~= old(self)@);
                    },
                }
            }
        }
        r
    }

    /// Delete a key from the subtree of `page_id`, whose leaves lie
    /// `depth` levels down. Pages are not merged.
    #[verifier::rlimit(100)]
    fn delete_recursive(
        &mut self,
        page_id: PageId,
        key: &[u8],
        depth: usize,
        Ghost(lo): Ghost<Bound>,
        Ghost(hi): Ghost<Bound>,
    ) -> (r: Result<bool, StorageError>)
        requires
            old(self).wf(),
        ensures
            final(self).wf(),
            final(self).keeps_means_of(old(self)),
            final(self).root() == old(self).root(),
            final(self).spec_height() == old(self).spec_height(),
            final(self).pool().disk().header_view() == old(self).pool().disk().header_view(),
            final(self).pool().disk().free_pages() == old(self).pool().disk().free_pages(),
            subtree_wf(old(self).pool().store(), page_id.0, depth as nat, lo, hi)
                && old(self).pages_in_use(page_id.0, depth as nat) ==> match r {
                Ok(found) => {
                    &&& subtree_wf(final(self).pool().store(), page_id.0, depth as nat, lo, hi)
                    &&& final(self).pages_in_use(page_id.0, depth as nat)
                    &&& grown_from(
                        old(self).pool().store(),
                        final(self).pool().store(),
                        page_id.0,
                        depth as nat,
                        Set::empty(),
                    )
                    &&& same_outside(
                        old(self).pool().store(),
                        final(self).pool().store(),
                        page_id.0,
                        depth as nat,
                        Set::empty(),
                    )
                    &&& found == (subtree_get(
                        old(self).pool().store(),
                        page_id.0,
                        depth as nat,
                        key@,
                    ) is Some)
                    &&& forall|k: Seq<u8>|
                        #![trigger subtree_get(final(self).pool().store(), page_id.0, depth as nat, k)]
                        subtree_get(final(self).pool().store(), page_id.0, depth as nat, k) == (
                        if k == key@ {
                            None
                        } else {
                            subtree_get(old(self).pool().store(), page_id.0, depth as nat, k)
                        })
                },
                Err(e) => old(self).excuses(e)
                    && final(self).pool().store() == old(self).pool().store(),
            },
        decreases depth,
    {
        let ghost s = self.pool().store();
        let ghost h = depth as nat;
        let ghost sound = subtree_wf(s, page_id.0, h, lo, hi) && self.pages_in_use(page_id.0, h);
        if depth == 0 {
            return Err(StorageError::corruption("the tree is deeper than its height"));
        }
        proof {
            if sound {
                assert(in_subtree(s, page_id.0, h, page_id.0));
            }
        }
        let page = match self.load(page_id) {
            Ok(page) => page,
            Err(e) => {
                return Err(e);
            },
        };
        proof {
            page.lemma_wf();
            if depth >= 2 {
                lemma_subtree_children(s, page_id.0, h, lo, hi);
            }
        }
        if page.is_leaf() {
            let mut page = page;
            let ghost cells = page@.cells;
            proof {
                page.lemma_tidy();
            }
            let found = match page.search(key) {
                Ok(found) => found,
                Err(e) => {
                    return Err(e);
                },
            };
            return match found {
                Some(idx) => {
                    match page.delete_cell(idx) {
                        Ok(_) => {},
                        Err(e) => {
                            return Err(e);
                        },
                    }
                    let ghost image = page.image();
                    proof {
                        page.lemma_wf();
                        page.lemma_tidy();
                        lemma_leaf_get_at(cells, idx as int);
                    }
                    match self.save(page_id, page) {
                        Ok(()) => {
                            proof {
                                if sound {
                                    let t = self.pool().store();
                                    assert(t == s.insert(page_id.0, image));
                                    assert(page_at(t, page_id.0).cells == cells.remove(idx as int));
                                    assert forall|i: int|
                                        0 <= i < cells.remove(idx as int).len() implies (
                                    #[trigger] cells.remove(idx as int)[i]) == cells[if i < idx {
                                        i
                                    } else {
                                        i + 1
                                    }] by {}
                                    assert(subtree_wf(t, page_id.0, h, lo, hi)) by {
                                        assert forall|i: int|
                                            0 <= i < page_at(t, page_id.0).cells.len() implies crate::btree::model::above(
                                            lo,
                                            (#[trigger] page_at(t, page_id.0).cells[i]).key,
                                        ) && crate::btree::model::below(
                                            page_at(t, page_id.0).cells[i].key,
                                            hi,
                                        ) by {
                                            let src = if i < idx { i } else { i + 1 };
                                            assert(page_at(t, page_id.0).cells[i] == cells[src]);
                                            assert(crate::btree::model::above(
                                                lo,
                                                page_at(s, page_id.0).cells[src].key,
                                            ));
                                        }
                                    }
                                    assert forall|k: Seq<u8>|
                                        #![trigger subtree_get(t, page_id.0, h, k)]
                                        subtree_get(t, page_id.0, h, k) == (if k == key@ {
                                            None
                                        } else {
                                            subtree_get(s, page_id.0, h, k)
                                        }) by {
                                        lemma_leaf_get_remove(cells, idx as int, k);
                                    }
                                }
                            }
                            Ok(true)
                        },
                        Err(e) => Err(e),
                    }
                },
                None => {
                    proof {
                        if sound {
                            assert(leaf_get(cells, key@) is None);
                        }
                    }
                    Ok(false)
                },
            };
        }
        // Interior node - find child.
        let child_id = match page.find_child(key) {
            Ok(child_id) => child_id,
            Err(e) => {
                return Err(e);
            },
        };
        let ghost j = child_slot(page@.cells, key@) as int;
        let ghost clo = child_lo(page@, j, lo);
        let ghost chi = child_hi(page@, j, hi);
        proof {
            lemma_child_slot(page@.cells, key@);
            if sound {
                assert(child_id.0 == child_of(page@, j));
                assert forall|x: u32| #[trigger]
                    in_subtree(s, child_id.0, (depth - 1) as nat, x) implies self.page_ok(x) by {
                    assert(in_subtree(s, page_id.0, h, x));
                }
            }
        }
        // Recursive delete. Pages that run low are not merged.
        let r = self.delete_recursive(child_id, key, depth - 1, Ghost(clo), Ghost(chi));
        proof {
            if sound && r is Ok {
                let t = self.pool().store();
                lemma_child_updated(s, t, page_id.0, h, lo, hi, j, Set::empty());
                assert forall|x: u32| #[trigger] in_subtree(t, page_id.0, h, x)
                    implies self.page_ok(x) by {
                    crate::btree::model::lemma_child_updated_page(
                        s,
                        t,
                        page_id.0,
                        h,
                        lo,
                        hi,
                        j,
                        Set::empty(),
                        x,
                    );
                    if in_subtree(s, page_id.0, h, x) && t[x] == s[x] {
                        assert(old(self).page_ok(x));
                    }
                }
                assert forall|k: Seq<u8>|
                    #![trigger subtree_get(t, page_id.0, h, k)]
                    subtree_get(t, page_id.0, h, k) == (if k == key@ {
                        None
                    } else {
                        subtree_get(s, page_id.0, h, k)
                    }) by {
                    lemma_child_slot(page@.cells, k);
                    if child_slot(page@.cells, k) == j {
                        assert(subtree_get(s, page_id.0, h, k) == subtree_get(
                            s,
                            child_id.0,
                            (depth - 1) as nat,
                            k,
                        ));
                    }
                }
            }
        }
        r
    }

    /// Scan a range of keys.
    ///
    /// Returns all key-value pairs where start <= key < end, in key
    /// order. Without a start the scan begins at the first key; without
    /// an end it runs to the last. Nothing changes.
    pub fn scan(&mut self, start: Option<&[u8]>, end: Option<&[u8]>) -> (r: Result<
        Vec<(Vec<u8>, Vec<u8>)>,
        StorageError,
    >)
        requires
            old(self).wf(),
        ensures
            final(self).wf(),
            final(self).keeps_means_of(old(self)),
            final(self).root() == old(self).root(),
            final(self).spec_height() == old(self).spec_height(),
            final(self).pool().store() == old(self).pool().store(),
            final(self).pool().disk().header_view() == old(self).pool().disk().header_view(),
            final(self).pool().disk().free_pages() == old(self).pool().disk().free_pages(),
            old(self).inv() ==> final(self).inv() && final(self)@ == old(self)@,
            old(self).inv() ==> match r {
                Ok(pairs) => is_scan_of(
                    pairs_view(pairs@),
                    old(self)@,
                    bound_view(start),
                    bound_view(end),
                ),
                Err(e) => old(self).excuses(e) && old(self).root().0 != 0,
            },
    {
        let mut results: Vec<(Vec<u8>, Vec<u8>)> = Vec::new();
        if self.root_page.value() == 0 {
            proof {
                assert(pairs_view(results@) =~= Seq::empty());
            }
            return Ok(results);
        }
        let root = self.root_page;
        let depth = self.height;
        let ghost s = self.pool().store();
        match self.scan_recursive(root, start, end, &mut results, depth, Ghost(None), Ghost(None)) {
            Ok(()) => {
                proof {
                    if old(self).inv() {
                        assert(pairs_view(results@).skip(0) =~= pairs_view(results@));
                        lemma_lists_tree(
                            pairs_view(results@),
                            s,
                            root.0,
                            depth as nat,
                            bound_view(start),
                            bound_view(end),
                        );
                    }
                }
                Ok(results)
            },
            Err(e) => Err(e),
        }
    }

    /// Scan the subtree of `page_id`, whose leaves lie `depth` levels
    /// down, and append what lies in the range to `results`.
    ///
    /// At a leaf, the cells from the start bound on are taken, up to the
    /// end bound. At an interior page, the child of the header comes
    /// first, then the child of each cell in order; a child whose keys
    /// cannot lie in the range, by the separators around it, is left out.
    fn scan_recursive(
        &mut self,
        page_id: PageId,
        start: Option<&[u8]>,
        end: Option<&[u8]>,
        results: &mut Vec<(Vec<u8>, Vec<u8>)>,
        depth: usize,
        Ghost(lo): Ghost<Bound>,
        Ghost(hi): Ghost<Bound>,
    ) -> (r: Result<(), StorageError>)
        requires
            old(self).wf(),
        ensures
            final(self).wf(),
            final(self).keeps_means_of(old(self)),
            final(self).root() == old(self).root(),
            final(self).spec_height() == old(self).spec_height(),
            final(self).pool().store() == old(self).pool().store(),
            final(self).pool().disk().header_view() == old(self).pool().disk().header_view(),
            final(self).pool().disk().free_pages() == old(self).pool().disk().free_pages(),
            subtree_wf(old(self).pool().store(), page_id.0, depth as nat, lo, hi)
                && old(self).pages_in_use(page_id.0, depth as nat) ==> match r {
                Ok(()) => {
                    &&& final(results)@.len() >= old(results)@.len()
                    &&& pairs_view(final(results)@).take(old(results)@.len() as int) == pairs_view(
                        old(results)@,
                    )
                    &&& lists_subtree(
                        pairs_view(final(results)@).skip(old(results)@.len() as int),
                        old(self).pool().store(),
                        page_id.0,
                        depth as nat,
                        bound_view(start),
                        bound_view(end),
                    )
                },
                Err(e) => old(self).excuses(e),
            },
        decreases depth,
    {
        let ghost s = self.pool().store();
        let ghost h = depth as nat;
        let ghost sound = subtree_wf(s, page_id.0, h, lo, hi) && self.pages_in_use(page_id.0, h);
        let ghost n0 = results@.len() as int;
        let ghost pv0 = pairs_view(results@);
        let ghost sv = bound_view(start);
        let ghost ev = bound_view(end);
        if depth == 0 {
            return Err(StorageError::corruption("the tree is deeper than its height"));
        }
        proof {
            if sound {
                assert(in_subtree(s, page_id.0, h, page_id.0));
            }
        }
        let page = match self.load(page_id) {
            Ok(page) => page,
            Err(e) => {
                return Err(e);
            },
        };
        proof {
            page.lemma_wf();
            if depth >= 2 {
                lemma_subtree_children(s, page_id.0, h, lo, hi);
            }
        }
        let cell_count = page.cell_count();
        let ghost cells = page@.cells;
        if page.is_leaf() {
            // Scan all cells in range.
            let mut i: usize = 0;
            let mut done = false;
            proof {
                assert(pairs_view(results@).skip(n0) =~= Seq::empty());
                assert(pairs_view(results@).take(n0) =~= pv0);
            }
            while i < cell_count && !done
                invariant
                    page.wf(),
                    page@.page_type.spec_is_leaf(),
                    cells == page@.cells,
                    keys_sorted(cells),
                    cell_count == cells.len(),
                    i <= cell_count,
                    sv == bound_view(start),
                    ev == bound_view(end),
                    0 <= n0 <= results@.len(),
                    pv0.len() == n0,
                    pairs_view(results@).take(n0) == pv0,
                    pairs_sorted(pairs_view(results@).skip(n0)),
                    forall|e: int|
                        0 <= e < results@.len() - n0 ==> leaf_get(
                            cells,
                            (#[trigger] pairs_view(results@).skip(n0)[e]).0,
                        ) == Some(pairs_view(results@).skip(n0)[e].1) && in_range(
                            pairs_view(results@).skip(n0)[e].0,
                            sv,
                            ev,
                        ) && i > 0 && key_le(pairs_view(results@).skip(n0)[e].0, cells[i - 1].key),
                    forall|x: int|
                        0 <= x < i && in_range((#[trigger] cells[x]).key, sv, ev) ==> exists|e: int|
                            0 <= e < results@.len() - n0 && (#[trigger] pairs_view(results@).skip(
                                n0,
                            )[e]).0 == cells[x].key,
                    forall|x: int| 0 <= x < i ==> below((#[trigger] cells[x]).key, ev),
                    done ==> i < cell_count && !below(cells[i as int].key, ev),
                decreases cell_count - i, if done { 0int } else { 1int },
            {
                let cell = match page.get_cell(i) {
                    Ok(cell) => cell,
                    Err(e) => {
                        return Err(e);
                    },
                };
                // Check end bound.
                let past_end = match end {
                    Some(e) => !key_less(cell.key.as_slice(), e),
                    None => false,
                };
                if past_end {
                    done = true;
                } else {
                    // Check start bound.
                    let before_start = match start {
                        Some(s) => key_less(cell.key.as_slice(), s),
                        None => false,
                    };
                    let ghost before = pairs_view(results@).skip(n0);
                    let ghost whole = pairs_view(results@);
                    proof {
                        if start is Some {
                            lemma_key_trichotomy(cell.key@, start.unwrap()@);
                        }
                        assert(before.len() == results@.len() - n0);
                        assert forall|e: int| 0 <= e < before.len() implies key_le(
                            (#[trigger] before[e]).0,
                            cells[i as int].key,
                        ) && before[e].0 != cells[i as int].key by {
                            assert(before[e] == pairs_view(results@).skip(n0)[e]);
                            assert(i > 0 && key_le(before[e].0, cells[i - 1].key));
                            assert(key_lt(cells[i - 1].key, cells[i as int].key));
                            crate::types::key_order::lemma_key_le_lt(
                                before[e].0,
                                cells[i - 1].key,
                                cells[i as int].key,
                            );
                            crate::types::key_order::lemma_key_lt_irreflexive(cells[i as int].key);
                        }
                    }
                    if !before_start {
                        proof {
                            lemma_leaf_get_at(cells, i as int);
                        }
                        results.push((cell.key, cell.value));
                        proof {
                            let after = pairs_view(results@).skip(n0);
                            let pair = (cells[i as int].key, cells[i as int].value);
                            assert(pairs_view(results@) =~= whole.push(pair));
                            assert(whole.push(pair).skip(n0) =~= whole.skip(n0).push(pair));
                            assert(after =~= before.push(pair));
                            assert(pairs_view(results@).take(n0) =~= pv0);
                            assert forall|a: int, b: int| 0 <= a < b < after.len() implies key_lt(
                                #[trigger] after[a].0,
                                #[trigger] after[b].0,
                            ) by {
                                if b < before.len() {
                                    assert(after[a] == before[a] && after[b] == before[b]);
                                } else {
                                    assert(after[a] == before[a]);
                                }
                            }
                            assert forall|x: int|
                                0 <= x < i + 1 && in_range(
                                    (#[trigger] cells[x]).key,
                                    sv,
                                    ev,
                                ) implies exists|e: int|
                                0 <= e < after.len() && (#[trigger] after[e]).0 == cells[x].key by {
                                if x < i {
                                    let e = choose|e: int|
                                        0 <= e < before.len() && (#[trigger] before[e]).0
                                            == cells[x].key;
                                    assert(after[e] == before[e]);
                                } else {
                                    assert(after[before.len() as int] == pair);
                                }
                            }
                            assert forall|e: int| 0 <= e < after.len() implies leaf_get(
                                cells,
                                (#[trigger] after[e]).0,
                            ) == Some(after[e].1) && in_range(after[e].0, sv, ev) && key_le(
                                after[e].0,
                                cells[i as int].key,
                            ) by {
                                if e < before.len() {
                                    assert(after[e] == before[e]);
                                }
                            }
                        }
                    }
                    i += 1;
                }
            }
            proof {
                if sound {
                    let acc = pairs_view(results@).skip(n0);
                    assert forall|k: Seq<u8>|
                        (#[trigger] subtree_get(s, page_id.0, h, k)) is Some && in_range(
                            k,
                            sv,
                            ev,
                        ) implies exists|e: int| 0 <= e < acc.len()
                            && (#[trigger] acc[e]).0 == k by {
                        let x = choose|x: int| 0 <= x < cells.len()
                            && (#[trigger] cells[x]).key == k;
                        if x >= i {
                            // The scan stopped at a key at or past the end.
                            if x > i {
                                assert(key_lt(cells[i as int].key, cells[x].key));
                                crate::types::key_order::lemma_key_lt_transitive(
                                    cells[i as int].key,
                                    cells[x].key,
                                    ev.unwrap(),
                                );
                            }
                        }
                    }
                }
            }
            Ok(())
        } else {
            // The child of the header comes first (smallest keys), then
            // the child of each cell.
            let mut j: usize = 0;
            proof {
                assert(pairs_view(results@).skip(n0) =~= Seq::empty());
                assert(pairs_view(results@).take(n0) =~= pv0);
            }
            while j <= cell_count
                invariant
                    self.wf(),
                    self.keeps_means_of(old(self)),
                    self.root() == old(self).root(),
                    self.spec_height() == old(self).spec_height(),
                    self.pool().store() == s,
                    s == old(self).pool().store(),
                    self.pool().disk().header_view() == old(self).pool().disk().header_view(),
                    self.pool().disk().free_pages() == old(self).pool().disk().free_pages(),
                    page.wf(),
                    cells == page@.cells,
                    cell_count == cells.len(),
                    cell_count < usize::MAX,
                    j <= cell_count + 1,
                    depth >= 1,
                    h == depth as nat,
                    sv == bound_view(start),
                    ev == bound_view(end),
                    sound == (subtree_wf(s, page_id.0, h, lo, hi) && old(self).pages_in_use(
                        page_id.0,
                        h,
                    )),
                    sound ==> page@ == page_at(s, page_id.0) && h >= 2,
                    sound ==> 0 <= n0 <= results@.len(),
                    pv0.len() == n0,
                    sound ==> pairs_view(results@).take(n0) == pv0,
                    sound ==> lists_slots(
                        pairs_view(results@).skip(n0),
                        s,
                        page_id.0,
                        h,
                        j as int,
                        sv,
                        ev,
                    ),
                decreases cell_count + 1 - j,
            {
                // The child in slot `j` and the separators around it.
                let lower: Option<Cell> = if j > 0 {
                    match page.get_cell(j - 1) {
                        Ok(cell) => Some(cell),
                        Err(e) => {
                            return Err(e);
                        },
                    }
                } else {
                    None
                };
                let upper: Option<Vec<u8>> = if j < cell_count {
                    match page.get_cell(j) {
                        Ok(cell) => Some(cell.key),
                        Err(e) => {
                            return Err(e);
                        },
                    }
                } else {
                    None
                };
                // The range [start, end) meets the keys of this child,
                // which lie from the separator before it up to the next.
                let range_start_ok = match start {
                    None => true,
                    Some(s) => match &upper {
                        None => true,
                        Some(u) => key_less(s, u.as_slice()),
                    },
                };
                let range_end_ok = match end {
                    None => true,
                    Some(e) => match &lower {
                        None => cell_count == 0 || e.len() > 0,
                        Some(cell) => key_less(cell.key.as_slice(), e),
                    },
                };
                let child_id = match &lower {
                    Some(cell) => cell.left_child,
                    None => page.right_child(),
                };
                let ghost acc = pairs_view(results@).skip(n0);
                let ghost whole = pairs_view(results@);
                let ghost n1 = results@.len() as int;
                if range_start_ok && range_end_ok {
                    proof {
                        if sound {
                            lemma_subtree_children(s, page_id.0, h, lo, hi);
                            assert(child_id.0 == child_of(page@, j as int));
                            assert forall|x: u32| #[trigger]
                                in_subtree(s, child_id.0, (depth - 1) as nat, x) implies self.page_ok(x) by {
                                assert(in_children(s, page@, h, x));
                                assert(in_subtree(s, page_id.0, h, x));
                            }
                        }
                    }
                    match self.scan_recursive(
                        child_id,
                        start,
                        end,
                        results,
                        depth - 1,
                        Ghost(child_lo(page@, j as int, lo)),
                        Ghost(child_hi(page@, j as int, hi)),
                    ) {
                        Ok(()) => {},
                        Err(e) => {
                            return Err(e);
                        },
                    }
                    proof {
                        if sound {
                            let now = pairs_view(results@);
                            let added = now.skip(n1);
                            assert(now.take(n1) == whole);
                            assert(now.skip(n0) =~= acc + added) by {
                                assert forall|e: int| 0 <= e < n1 - n0 implies now.skip(n0)[e]
                                    == acc[e] by {
                                    assert(now.take(n1)[e + n0] == whole[e + n0]);
                                }
                            }
                            assert(now.take(n0) =~= pv0) by {
                                assert forall|e: int| 0 <= e < n0 implies now.take(n0)[e]
                                    == pv0[e] by {
                                    assert(now.take(n1)[e] == whole[e]);
                                    assert(whole.take(n0)[e] == pv0[e]);
                                }
                            }
                            lemma_lists_extend(
                                acc,
                                added,
                                s,
                                page_id.0,
                                h,
                                lo,
                                hi,
                                j as int,
                                sv,
                                ev,
                            );
                        }
                    }
                } else {
                    proof {
                        if sound {
                            lemma_lists_skip(acc, s, page_id.0, h, lo, hi, j as int, sv, ev);
                        }
                    }
                }
                j += 1;
            }
            proof {
                if sound {
                    let acc = pairs_view(results@).skip(n0);
                    assert forall|k: Seq<u8>|
                        (#[trigger] subtree_get(s, page_id.0, h, k)) is Some && in_range(
                            k,
                            sv,
                            ev,
                        ) implies exists|e: int| 0 <= e < acc.len()
                            && (#[trigger] acc[e]).0 == k by {
                        lemma_child_slot(cells, k);
                    }
                }
            }
            Ok(())
        }
    }

    /// Find the first entry from a key on.
    ///
    /// Returns the entry with the least key that is `from` or sorts after
    /// it, or that sorts after it where `after` is set; without `from`,
    /// the first entry of the tree. Nothing changes.
    pub fn seek(&mut self, from: Option<&[u8]>, after: bool) -> (r: Result<
        Option<(Vec<u8>, Vec<u8>)>,
        StorageError,
    >)
        requires
            old(self).wf(),
        ensures
            final(self).wf(),
            final(self).keeps_means_of(old(self)),
            final(self).same_tree(old(self)),
            old(self).inv() ==> final(self).inv() && final(self)@ == old(self)@,
            old(self).inv() ==> match r {
                Ok(found) => is_first(entry_view(found), old(self)@, bound_view(from), after),
                Err(e) => old(self).excuses(e) && old(self).root().0 != 0,
            },
    {
        if self.root_page.value() == 0 {
            return Ok(None);
        }
        let root = self.root_page;
        let depth = self.height;
        let ghost s = self.pool().store();
        match self.seek_recursive(root, from, after, depth, Ghost(None), Ghost(None)) {
            Ok(found) => {
                proof {
                    if old(self).inv() {
                        lemma_first_in_tree(
                            entry_view(found),
                            s,
                            root.0,
                            depth as nat,
                            bound_view(from),
                            after,
                        );
                    }
                }
                Ok(found)
            },
            Err(e) => Err(e),
        }
    }

    /// Find the first admitted entry of the subtree of `page_id`, whose
    /// leaves lie `depth` levels down.
    ///
    /// At a leaf, it is the first cell whose key is admitted. At an
    /// interior page, the children are asked in order; a child whose
    /// keys all sort before `from`, by the separator after it, is left
    /// out.
    fn seek_recursive(
        &mut self,
        page_id: PageId,
        from: Option<&[u8]>,
        after: bool,
        depth: usize,
        Ghost(lo): Ghost<Bound>,
        Ghost(hi): Ghost<Bound>,
    ) -> (r: Result<Option<(Vec<u8>, Vec<u8>)>, StorageError>)
        requires
            old(self).wf(),
        ensures
            final(self).wf(),
            final(self).keeps_means_of(old(self)),
            final(self).same_tree(old(self)),
            subtree_wf(old(self).pool().store(), page_id.0, depth as nat, lo, hi)
                && old(self).pages_in_use(page_id.0, depth as nat) ==> match r {
                Ok(found) => first_in_subtree(
                    entry_view(found),
                    old(self).pool().store(),
                    page_id.0,
                    depth as nat,
                    bound_view(from),
                    after,
                ),
                Err(e) => old(self).excuses(e),
            },
        decreases depth,
    {
        let ghost s = self.pool().store();
        let ghost h = depth as nat;
        let ghost sound = subtree_wf(s, page_id.0, h, lo, hi) && self.pages_in_use(page_id.0, h);
        let ghost fv = bound_view(from);
        if depth == 0 {
            return Err(StorageError::corruption("the tree is deeper than its height"));
        }
        proof {
            if sound {
                assert(in_subtree(s, page_id.0, h, page_id.0));
                assert(self.page_ok(page_id.0));
            }
        }
        let page = match self.load(page_id) {
            Ok(page) => page,
            Err(e) => {
                return Err(e);
            },
        };
        let cell_count = page.cell_count();
        let ghost cells = page@.cells;
        proof {
            page.lemma_wf();
            if depth >= 2 {
                lemma_subtree_children(s, page_id.0, h, lo, hi);
            }
            if sound {
                assert(page@ == page_at(s, page_id.0));
            }
        }
        if page.is_leaf() {
            let mut i: usize = 0;
            while i < cell_count
                invariant
                    page.wf(),
                    cells == page@.cells,
                    cell_count == cells.len(),
                    keys_sorted(cells),
                    i <= cell_count,
                    fv == bound_view(from),
                    self.wf(),
                    self.keeps_means_of(old(self)),
                    self.same_tree(old(self)),
                    sound == (subtree_wf(s, page_id.0, h, lo, hi) && old(self).pages_in_use(
                        page_id.0,
                        h,
                    )),
                    s == old(self).pool().store(),
                    h == depth as nat,
                    sound ==> h == 1 && page@ == page_at(s, page_id.0),
                    forall|x: int| 0 <= x < i ==> !admits(fv, after, (#[trigger] cells[x]).key),
                decreases cell_count - i,
            {
                let cell = match page.get_cell(i) {
                    Ok(cell) => cell,
                    Err(e) => {
                        return Err(e);
                    },
                };
                let admitted = match from {
                    None => true,
                    Some(f) => if after {
                        key_less(f, cell.key.as_slice())
                    } else {
                        !key_less(cell.key.as_slice(), f)
                    },
                };
                proof {
                    if from is Some {
                        lemma_key_trichotomy(cell.key@, from.unwrap()@);
                    }
                    assert(admitted == admits(fv, after, cells[i as int].key));
                }
                if admitted {
                    proof {
                        if sound {
                            let k = cells[i as int].key;
                            lemma_leaf_get_at(cells, i as int);
                            assert(cell.key@ == k && cell.value@ == cells[i as int].value);
                            assert(subtree_get(s, page_id.0, h, k) == Some(cells[i as int].value));
                            assert forall|x: Seq<u8>|
                                (#[trigger] subtree_get(s, page_id.0, h, x)) is Some && admits(
                                    fv,
                                    after,
                                    x,
                                ) implies key_le(k, x) by {
                                let m = choose|m: int|
                                    0 <= m < cells.len() && (#[trigger] cells[m]).key == x;
                                if m > i {
                                    assert(key_lt(cells[i as int].key, cells[m].key));
                                }
                            }
                        }
                    }
                    return Ok(Some((cell.key, cell.value)));
                }
                i += 1;
            }
            proof {
                if sound {
                    assert forall|x: Seq<u8>|
                        (#[trigger] subtree_get(s, page_id.0, h, x)) is Some implies !admits(
                        fv,
                        after,
                        x,
                    ) by {
                        let m = choose|m: int|
                            0 <= m < cells.len() && (#[trigger] cells[m]).key == x;
                        assert(!admits(fv, after, cells[m].key));
                    }
                }
            }
            return Ok(None);
        }
        // The child of the header comes first (smallest keys), then the
        // child of each cell.
        let mut j: usize = 0;
        while j <= cell_count
            invariant
                self.wf(),
                self.keeps_means_of(old(self)),
                self.same_tree(old(self)),
                self.pool().store() == s,
                page.wf(),
                cells == page@.cells,
                cell_count == cells.len(),
                cell_count < usize::MAX,
                j <= cell_count + 1,
                depth >= 1,
                h == depth as nat,
                fv == bound_view(from),
                sound == (subtree_wf(s, page_id.0, h, lo, hi) && old(self).pages_in_use(
                    page_id.0,
                    h,
                )),
                sound ==> page@ == page_at(s, page_id.0) && h >= 2,
                keys_sorted(cells),
                sound ==> forall|x: Seq<u8>|
                    (#[trigger] subtree_get(s, page_id.0, h, x)) is Some && admits(fv, after, x)
                        ==> child_slot(cells, x) >= j,
            decreases cell_count + 1 - j,
        {
            let lower: Option<Cell> = if j > 0 {
                match page.get_cell(j - 1) {
                    Ok(cell) => Some(cell),
                    Err(e) => {
                        return Err(e);
                    },
                }
            } else {
                None
            };
            let upper: Option<Vec<u8>> = if j < cell_count {
                match page.get_cell(j) {
                    Ok(cell) => Some(cell.key),
                    Err(e) => {
                        return Err(e);
                    },
                }
            } else {
                None
            };
            // The keys of this child lie below the separator after it.
            let in_reach = match from {
                None => true,
                Some(f) => match &upper {
                    None => true,
                    Some(u) => key_less(f, u.as_slice()),
                },
            };
            let child_id = match &lower {
                Some(cell) => cell.left_child,
                None => page.right_child(),
            };
            let ghost v = page@;
            let ghost g = (h - 1) as nat;
            let ghost clo = child_lo(v, j as int, lo);
            let ghost chi = child_hi(v, j as int, hi);
            if in_reach {
                proof {
                    if sound {
                        assert(child_id.0 == child_of(v, j as int));
                        assert(subtree_wf(s, child_of(v, j as int), g, clo, chi));
                        assert forall|x: u32| #[trigger] in_subtree(s, child_id.0, g, x)
                            implies self.page_ok(x) by {
                            assert(in_subtree(s, page_id.0, h, x));
                            assert(old(self).page_ok(x));
                        }
                    }
                }
                let found = match self.seek_recursive(
                    child_id,
                    from,
                    after,
                    depth - 1,
                    Ghost(clo),
                    Ghost(chi),
                ) {
                    Ok(found) => found,
                    Err(e) => {
                        return Err(e);
                    },
                };
                match found {
                    Some(entry) => {
                        proof {
                            if sound {
                                let k = entry.0@;
                                lemma_get_in_bounds(s, child_id.0, g, clo, chi, k);
                                lemma_route_is(v, k, j as int, lo, hi);
                                assert forall|x: Seq<u8>|
                                    (#[trigger] subtree_get(s, page_id.0, h, x)) is Some && admits(
                                        fv,
                                        after,
                                        x,
                                    ) implies key_le(k, x) by {
                                    let jx = child_slot(cells, x) as int;
                                    lemma_get_in_bounds(s, page_id.0, h, lo, hi, x);
                                    lemma_route(v, x, lo, hi);
                                    if jx == j {
                                        assert(subtree_get(s, child_id.0, g, x) is Some);
                                    } else {
                                        assert(key_lt(k, cells[j as int].key));
                                        if jx - 1 > j {
                                            assert(key_lt(cells[j as int].key, cells[jx - 1].key));
                                            lemma_key_lt_transitive(
                                                k,
                                                cells[j as int].key,
                                                cells[jx - 1].key,
                                            );
                                        }
                                        lemma_key_lt_le(k, cells[jx - 1].key, x);
                                    }
                                }
                            }
                        }
                        return Ok(Some(entry));
                    },
                    None => {
                        proof {
                            if sound {
                                assert forall|x: Seq<u8>|
                                    (#[trigger] subtree_get(s, page_id.0, h, x)) is Some && admits(
                                        fv,
                                        after,
                                        x,
                                    ) implies child_slot(cells, x) >= j + 1 by {
                                    lemma_get_in_bounds(s, page_id.0, h, lo, hi, x);
                                    lemma_route(v, x, lo, hi);
                                    if child_slot(cells, x) == j {
                                        assert(subtree_get(s, child_id.0, g, x) is Some);
                                    }
                                }
                            }
                        }
                    },
                }
            } else {
                proof {
                    if sound {
                        let f = fv.unwrap();
                        let u = cells[j as int].key;
                        lemma_key_trichotomy(f, u);
                        assert forall|x: Seq<u8>|
                            (#[trigger] subtree_get(s, page_id.0, h, x)) is Some && admits(
                                fv,
                                after,
                                x,
                            ) implies child_slot(cells, x) >= j + 1 by {
                            lemma_get_in_bounds(s, page_id.0, h, lo, hi, x);
                            lemma_route(v, x, lo, hi);
                            if child_slot(cells, x) == j {
                                // Below the separator, so before `from`.
                                assert(key_lt(x, u));
                                lemma_key_lt_le(x, u, f);
                                lemma_key_trichotomy(x, f);
                            }
                        }
                    }
                }
            }
            j += 1;
        }
        proof {
            if sound {
                assert forall|x: Seq<u8>|
                    (#[trigger] subtree_get(s, page_id.0, h, x)) is Some implies !admits(
                    fv,
                    after,
                    x,
                ) by {
                    lemma_get_in_bounds(s, page_id.0, h, lo, hi, x);
                    lemma_route(page@, x, lo, hi);
                }
            }
        }
        Ok(None)
    }

    /// Export the tree structure for showing it: the node of the root,
    /// or nothing for a tree without root. Nothing changes.
    pub fn export_tree(&mut self) -> (r: Result<Option<TreeNode>, StorageError>)
        requires
            old(self).wf(),
        ensures
            final(self).wf(),
            final(self).keeps_means_of(old(self)),
            final(self).same_tree(old(self)),
            old(self).inv() ==> final(self).inv() && final(self)@ == old(self)@,
            old(self).inv() ==> match r {
                Ok(None) => old(self).root().0 == 0,
                Ok(Some(node)) => old(self).root().0 != 0 && shows(
                    node,
                    old(self).pool().store(),
                    old(self).root().0,
                    old(self).spec_height() as nat,
                ),
                Err(e) => old(self).excuses(e) && old(self).root().0 != 0,
            },
    {
        if self.root_page.value() == 0 {
            return Ok(None);
        }
        let root = self.root_page;
        let depth = self.height;
        match self.export_node(root, depth, Ghost(None), Ghost(None)) {
            Ok(node) => Ok(Some(node)),
            Err(e) => Err(e),
        }
    }

    /// Export the subtree of `page_id`, whose leaves lie `depth` levels
    /// down.
    fn export_node(
        &mut self,
        page_id: PageId,
        depth: usize,
        Ghost(lo): Ghost<Bound>,
        Ghost(hi): Ghost<Bound>,
    ) -> (r: Result<TreeNode, StorageError>)
        requires
            old(self).wf(),
        ensures
            final(self).wf(),
            final(self).keeps_means_of(old(self)),
            final(self).same_tree(old(self)),
            subtree_wf(old(self).pool().store(), page_id.0, depth as nat, lo, hi)
                && old(self).pages_in_use(page_id.0, depth as nat) ==> match r {
                Ok(node) => shows(node, old(self).pool().store(), page_id.0, depth as nat),
                Err(e) => old(self).excuses(e),
            },
        decreases depth,
    {
        let ghost s = self.pool().store();
        let ghost h = depth as nat;
        let ghost sound = subtree_wf(s, page_id.0, h, lo, hi) && self.pages_in_use(page_id.0, h);
        if depth == 0 {
            return Err(StorageError::corruption("the tree is deeper than its height"));
        }
        proof {
            if sound {
                assert(in_subtree(s, page_id.0, h, page_id.0));
            }
        }
        let page = match self.load(page_id) {
            Ok(page) => page,
            Err(e) => {
                return Err(e);
            },
        };
        proof {
            page.lemma_wf();
            if depth >= 2 {
                lemma_subtree_children(s, page_id.0, h, lo, hi);
            }
        }
        let cell_count = page.cell_count();
        let is_leaf = page.is_leaf();
        let ghost cells = page@.cells;
        let mut keys: Vec<String> = Vec::new();
        let mut values: Vec<String> = Vec::new();
        let mut child_ids: Vec<PageId> = Vec::new();
        if !is_leaf {
            // The child of the header comes first: it holds the smallest keys.
            child_ids.push(page.right_child());
        }
        let mut i: usize = 0;
        while i < cell_count
            invariant
                page.wf(),
                is_leaf == page@.page_type.spec_is_leaf(),
                cells == page@.cells,
                cell_count == cells.len(),
                i <= cell_count,
                keys@.len() == i,
                forall|x: int|
                    0 <= x < i ==> (#[trigger] keys@[x])@ == crate::types::text::utf8_lossy(
                        cells[x].key,
                    ),
                is_leaf ==> values@.len() == i && child_ids@.len() == 0,
                is_leaf ==> forall|x: int|
                    0 <= x < i ==> (#[trigger] values@[x])@ == crate::types::text::utf8_lossy(
                        cells[x].value,
                    ),
                !is_leaf ==> values@.len() == 0 && child_ids@.len() == i + 1,
                !is_leaf ==> forall|x: int|
                    0 <= x <= i ==> (#[trigger] child_ids@[x]).0 == child_of(page@, x),
            decreases cell_count - i,
        {
            let cell = match page.get_cell(i) {
                Ok(cell) => cell,
                Err(e) => {
                    return Err(e);
                },
            };
            proof {
                page.lemma_wf();
            }
            keys.push(crate::types::text::lossy_text(cell.key.as_slice()));
            if is_leaf {
                values.push(crate::types::text::lossy_text(cell.value.as_slice()));
            } else {
                child_ids.push(cell.left_child);
            }
            i += 1;
        }
        // Now export all children.
        let mut children: Vec<TreeNode> = Vec::new();
        let mut j: usize = 0;
        while j < child_ids.len()
            invariant
                self.wf(),
                self.keeps_means_of(old(self)),
                self.same_tree(old(self)),
                s == old(self).pool().store(),
                h == depth as nat,
                depth >= 1,
                sound == (subtree_wf(s, page_id.0, h, lo, hi) && old(self).pages_in_use(
                    page_id.0,
                    h,
                )),
                page.wf(),
                sound ==> page@ == page_at(s, page_id.0),
                cells == page@.cells,
                is_leaf == page@.page_type.spec_is_leaf(),
                j <= child_ids@.len(),
                is_leaf ==> child_ids@.len() == 0,
                !is_leaf ==> child_ids@.len() == cells.len() + 1,
                !is_leaf ==> forall|x: int|
                    0 <= x <= cells.len() ==> (#[trigger] child_ids@[x]).0 == child_of(page@, x),
                children@.len() == j,
                sound ==> forall|x: int|
                    0 <= x < j ==> shows(
                        #[trigger] children@[x],
                        s,
                        child_of(page@, x),
                        (h - 1) as nat,
                    ),
            decreases child_ids@.len() - j,
        {
            let child_id = child_ids[j];
            proof {
                if sound {
                    lemma_subtree_children(s, page_id.0, h, lo, hi);
                    assert(h >= 2);
                    assert(child_id.0 == child_of(page@, j as int));
                    assert(subtree_wf(
                        s,
                        child_of(page@, j as int),
                        (h - 1) as nat,
                        child_lo(page@, j as int, lo),
                        child_hi(page@, j as int, hi),
                    ));
                    assert forall|x: u32| #[trigger]
                        in_subtree(s, child_id.0, (depth - 1) as nat, x) implies self.page_ok(x) by {
                        assert(in_children(s, page@, h, x));
                        assert(in_subtree(s, page_id.0, h, x));
                    }
                }
            }
            let node = match self.export_node(
                child_id,
                depth - 1,
                Ghost(child_lo(page@, j as int, lo)),
                Ghost(child_hi(page@, j as int, hi)),
            ) {
                Ok(node) => node,
                Err(e) => {
                    return Err(e);
                },
            };
            let ghost before = children@;
            children.push(node);
            proof {
                if sound {
                    assert forall|x: int| 0 <= x < j + 1 implies shows(
                        #[trigger] children@[x],
                        s,
                        child_of(page@, x),
                        (h - 1) as nat,
                    ) by {
                        if x < j {
                            assert(children@[x] == before[x]);
                        }
                    }
                }
            }
            j += 1;
        }
        Ok(TreeNode { page_id: page_id.value(), is_leaf, keys, values, children })
    }

    /// Flush all dirty pages to disk, and make the file durable.
    pub fn flush(&mut self) -> (r: Result<(), StorageError>)
        requires
            old(self).wf(),
        ensures
            final(self).wf(),
            final(self).keeps_means_of(old(self)),
            final(self).root() == old(self).root(),
            final(self).same_tree(old(self)),
            old(self).inv() ==> final(self).inv() && final(self)@ == old(self)@,
            r is Ok ==> final(self).pool().disk().durable(),
            r is Ok ==> forall|k: u32| !final(self).pool().is_dirty(k),
            r is Err ==> (r matches Err(StorageError::Io(_)))
                && !old(self).pool().disk().dependable(),
    {
        self.buffer_pool.flush_all()
    }
}

impl BTree<DiskManagerImpl> {
    /// Hand out the file actions that the disk manager has queued, in
    /// order. None is left pending.
    pub fn take_actions(&mut self) -> (r: Vec<DiskAction>)
        requires
            old(self).wf(),
        ensures
            final(self).wf(),
            final(self).keeps_means_of(old(self)),
            final(self).same_tree(old(self)),
            old(self).inv() ==> final(self).inv() && final(self)@ == old(self)@,
            action_views(r@) == old(self).pool().disk().pending(),
            final(self).pool().disk().pending() == Seq::<DiskActionView>::empty(),
            final(self).pool().disk().base() == old(self).pool().disk().file(),
            final(self).pool().disk().file() == old(self).pool().disk().file(),
            final(self).pool().disk().durable() == old(self).pool().disk().durable(),
            forall|k: u32| final(self).pool().is_dirty(k) == old(self).pool().is_dirty(k),
    {
        self.buffer_pool.take_actions()
    }
}

} // verus!
