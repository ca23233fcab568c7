//! The tree as a mathematical object.
//!
//! A tree is read off a page store: a map from page numbers to page
//! images. The subtree of a page at height 1 is the leaf itself; at a
//! greater height it is the interior page and the subtrees of its
//! children, one level lower. Every subtree covers a range of keys: from a
//! lower bound on, up to an upper bound, either of which may be absent.
use crate::page::cell::{CellView, spec_encode_interior, spec_encode_leaf};
use crate::page::header::{INTERIOR_HEADER_SIZE, LEAF_HEADER_SIZE, PageHeader};
use crate::page::slotted::{
    cells_size, child_for, child_slot, image_wf, keys_sorted, lemma_child_slot, lemma_child_slot_is,
    lemma_image_view_wf, PageView, view_of_image,
};
use crate::types::PAGE_SIZE;
use crate::types::key_order::{
    key_le, key_lt, lemma_key_le_lt, lemma_key_lt_irreflexive, lemma_key_lt_le,
    lemma_key_lt_transitive, lemma_key_trichotomy,
};
use crate::types::page_id::PageId;
use vstd::prelude::*;

verus! {

/// A page store: the image of every page, by page number.
pub type Store = Map<u32, Seq<u8>>;

/// An optional bound on keys.
pub type Bound = Option<Seq<u8>>;

/// What page `id` of the store stands for.
pub open spec fn page_at(s: Store, id: u32) -> PageView {
    view_of_image(s[id])
}

/// `k` is at or above the lower bound.
pub open spec fn above(lo: Bound, k: Seq<u8>) -> bool {
    lo matches Some(l) ==> key_le(l, k)
}

/// `k` is above the lower bound and not the bound itself.
pub open spec fn strictly_above(lo: Bound, k: Seq<u8>) -> bool {
    lo matches Some(l) ==> key_lt(l, k)
}

/// `k` is below the upper bound.
pub open spec fn below(k: Seq<u8>, hi: Bound) -> bool {
    hi matches Some(h) ==> key_lt(k, h)
}

/// Child `j` of an interior page: child 0 is the child of the header,
/// child `j` the child of cell `j - 1`.
pub open spec fn child_of(v: PageView, j: int) -> u32 {
    if j == 0 {
        v.right_child.0
    } else {
        v.cells[j - 1].left_child.0
    }
}

/// Lower bound of the keys under child `j`: the separator before it.
pub open spec fn child_lo(v: PageView, j: int, lo: Bound) -> Bound {
    if j == 0 {
        lo
    } else {
        Some(v.cells[j - 1].key)
    }
}

/// Upper bound of the keys under child `j`: the separator after it.
pub open spec fn child_hi(v: PageView, j: int, hi: Bound) -> Bound {
    if j == v.cells.len() {
        hi
    } else {
        Some(v.cells[j].key)
    }
}

/// Page `x` belongs to the subtree of page `id`, whose leaves lie `h`
/// levels down.
pub open spec fn in_subtree(s: Store, id: u32, h: nat, x: u32) -> bool
    decreases h,
{
    if h == 0 {
        false
    } else if x == id {
        true
    } else if h == 1 {
        false
    } else {
        exists|j: int|
            0 <= j <= page_at(s, id).cells.len() && in_subtree(
                s,
                #[trigger] child_of(page_at(s, id), j),
                (h - 1) as nat,
                x,
            )
    }
}

/// Page `x` belongs to the subtree of a child of the interior page `v`.
pub open spec fn in_children(s: Store, v: PageView, h: nat, x: u32) -> bool {
    h >= 2 && exists|j: int|
        0 <= j <= v.cells.len() && in_subtree(s, #[trigger] child_of(v, j), (h - 1) as nat, x)
}

/// Page `id` is the root of a well-formed subtree of height `h` whose
/// keys lie from `lo` on and below `hi`.
///
/// A leaf holds keys within the bounds. The separators of an interior
/// page lie above the lower bound and below the upper one; its children
/// are roots of well-formed subtrees one level down, each within the
/// separators around it; no page belongs to two of them, and the page
/// itself to none.
pub open spec fn subtree_wf(s: Store, id: u32, h: nat, lo: Bound, hi: Bound) -> bool
    decreases h,
{
    &&& h >= 1
    &&& id != 0
    &&& s.contains_key(id)
    &&& image_wf(s[id])
    &&& if h == 1 {
        &&& page_at(s, id).page_type.spec_is_leaf()
        &&& forall|i: int|
            0 <= i < page_at(s, id).cells.len() ==> above(
                lo,
                (#[trigger] page_at(s, id).cells[i]).key,
            ) && below(page_at(s, id).cells[i].key, hi)
    } else {
        &&& page_at(s, id).page_type.spec_is_interior()
        &&& forall|i: int|
            0 <= i < page_at(s, id).cells.len() ==> strictly_above(
                lo,
                (#[trigger] page_at(s, id).cells[i]).key,
            ) && below(page_at(s, id).cells[i].key, hi)
        &&& forall|j: int|
            0 <= j <= page_at(s, id).cells.len() ==> subtree_wf(
                s,
                #[trigger] child_of(page_at(s, id), j),
                (h - 1) as nat,
                child_lo(page_at(s, id), j, lo),
                child_hi(page_at(s, id), j, hi),
            )
        &&& forall|j: int, k: int, x: u32|
            0 <= j < k <= page_at(s, id).cells.len() ==> !(#[trigger] in_subtree(
                s,
                child_of(page_at(s, id), j),
                (h - 1) as nat,
                x,
            ) && #[trigger] in_subtree(s, child_of(page_at(s, id), k), (h - 1) as nat, x))
        &&& forall|j: int|
            0 <= j <= page_at(s, id).cells.len() ==> !#[trigger] in_subtree(
                s,
                child_of(page_at(s, id), j),
                (h - 1) as nat,
                id,
            )
    }
}

/// The children of the interior page `v` are roots of well-formed
/// subtrees one level down, each within the separators around it; no page
/// belongs to two of them.
pub open spec fn children_wf(s: Store, v: PageView, h: nat, lo: Bound, hi: Bound) -> bool {
    &&& h >= 2
    &&& v.page_type.spec_is_interior()
    &&& keys_sorted(v.cells)
    &&& forall|i: int|
        0 <= i < v.cells.len() ==> strictly_above(lo, (#[trigger] v.cells[i]).key) && below(
            v.cells[i].key,
            hi,
        )
    &&& forall|j: int|
        0 <= j <= v.cells.len() ==> subtree_wf(
            s,
            #[trigger] child_of(v, j),
            (h - 1) as nat,
            child_lo(v, j, lo),
            child_hi(v, j, hi),
        )
    &&& forall|j: int, k: int, x: u32|
        0 <= j < k <= v.cells.len() ==> !(#[trigger] in_subtree(
            s,
            child_of(v, j),
            (h - 1) as nat,
            x,
        ) && #[trigger] in_subtree(s, child_of(v, k), (h - 1) as nat, x))
}

/// A well-formed subtree above the leaves is a well-formed page whose
/// children are well formed and do not hold the page itself; and the
/// other way round.
pub proof fn lemma_subtree_children(s: Store, id: u32, h: nat, lo: Bound, hi: Bound)
    requires
        h >= 2,
    ensures
        subtree_wf(s, id, h, lo, hi) <==> (id != 0 && s.contains_key(id) && image_wf(s[id])
            && children_wf(s, page_at(s, id), h, lo, hi) && !in_children(
            s,
            page_at(s, id),
            h,
            id,
        )),
        forall|x: u32| in_subtree(s, id, h, x) <==> (x == id
            || in_children(s, page_at(s, id), h, x)),
{
    if s.contains_key(id) && image_wf(s[id]) {
        lemma_image_view_wf(s[id]);
    }
}

/// Page `x` is in use: it lies within the file and is not on the free list.
pub open spec fn is_allocated(page_count: u32, free: Seq<crate::types::page_id::PageId>, x: u32) -> bool {
    0 < x < page_count && !free.contains(crate::types::page_id::PageId(x))
}

/// No page is on the free list twice.
pub open spec fn free_distinct(free: Seq<crate::types::page_id::PageId>) -> bool {
    forall|i: int, j: int| 0 <= i < j < free.len() ==> free[i] != free[j]
}

/// The bytes of a value, if there is one.
pub open spec fn option_view(v: Option<Vec<u8>>) -> Option<Seq<u8>> {
    match v {
        Some(bytes) => Some(bytes@),
        None => None,
    }
}

/// The value of `key` among the cells of a leaf.
pub open spec fn leaf_get(cells: Seq<CellView>, key: Seq<u8>) -> Option<Seq<u8>> {
    if exists|i: int| 0 <= i < cells.len() && (#[trigger] cells[i]).key == key {
        Some(cells[choose|i: int| 0 <= i < cells.len() && (#[trigger] cells[i]).key == key].value)
    } else {
        None
    }
}

/// The value of `key` in the subtree of page `id`: what the leaf holds to
/// which the separators lead.
pub open spec fn subtree_get(s: Store, id: u32, h: nat, key: Seq<u8>) -> Option<Seq<u8>>
    decreases h,
{
    if h == 0 {
        None
    } else if h == 1 {
        leaf_get(page_at(s, id).cells, key)
    } else {
        subtree_get(s, child_for(page_at(s, id), key).0, (h - 1) as nat, key)
    }
}

/// The leaf of the subtree of `id` to which the separators send `key`.
pub open spec fn leaf_for(s: Store, id: u32, h: nat, key: Seq<u8>) -> u32
    decreases h,
{
    if h <= 1 {
        id
    } else {
        leaf_for(s, child_for(page_at(s, id), key).0, (h - 1) as nat, key)
    }
}

/// The leaf for `key` has room for the pair: for the bytes of its cell
/// and of the pointer to it.
pub open spec fn has_room(s: Store, id: u32, h: nat, key: Seq<u8>, value: Seq<u8>) -> bool {
    let leaf = leaf_for(s, id, h, key);
    &&& s.contains_key(leaf)
    &&& PageHeader::spec_read(s[leaf]) matches Some(header) && header.spec_free_space()
        >= spec_encode_leaf(key, value).len() + 2
}

/// The key at which a leaf with the cells `cells` is split: that of its
/// middle cell.
pub open spec fn split_key(cells: Seq<CellView>) -> Seq<u8> {
    cells[(cells.len() / 2) as int].key
}

/// The split of a leaf with the cells `cells` makes room for a cell of
/// `size` bytes under `key`: the cell goes to the lower half if its key
/// sorts before the middle cell's, else to the upper half; that half,
/// packed, takes the cell and the pointer to it, and the lower half is
/// not left without a cell.
pub open spec fn leaf_split_takes(cells: Seq<CellView>, key: Seq<u8>, size: nat) -> bool {
    let mid = (cells.len() / 2) as int;
    &&& cells.len() > 0
    &&& if key_lt(key, split_key(cells)) {
        LEAF_HEADER_SIZE + 2 * (mid + 1) + cells_size(cells.take(mid)) + size <= PAGE_SIZE
    } else {
        &&& mid >= 1
        &&& LEAF_HEADER_SIZE + 2 * (cells.len() - mid + 1) + cells_size(cells.skip(mid)) + size
            <= PAGE_SIZE
    }
}

/// The interior page of the image `image` has room for the separator
/// `sep`: for its cell and for the pointer to it.
pub open spec fn separator_fits(image: Seq<u8>, sep: Seq<u8>) -> bool {
    PageHeader::spec_read(image) matches Some(header) && header.spec_free_space()
        >= spec_encode_interior(sep, PageId(0)).len() + 2
}

/// A page without cells has room for the separator `sep`.
pub open spec fn fresh_root_takes(sep: Seq<u8>) -> bool {
    INTERIOR_HEADER_SIZE + 2 + spec_encode_interior(sep, PageId(0)).len() <= PAGE_SIZE
}

/// The split of an interior page with the cells `cells` makes room for
/// the separator `sep`: its middle cell moves up; the separator goes to
/// the lower half if it sorts before the key of that cell, else to the
/// upper half; and that half, packed, takes its cell and the pointer to
/// it.
pub open spec fn interior_split_takes(cells: Seq<CellView>, sep: Seq<u8>) -> bool {
    let mid = (cells.len() / 2) as int;
    let size = spec_encode_interior(sep, PageId(0)).len();
    &&& cells.len() > 0
    &&& if key_lt(sep, split_key(cells)) {
        INTERIOR_HEADER_SIZE + 2 * (mid + 1) + cells_size(cells.take(mid)) + size <= PAGE_SIZE
    } else {
        INTERIOR_HEADER_SIZE + 2 * (cells.len() - mid) + cells_size(cells.skip(mid + 1)) + size
            <= PAGE_SIZE
    }
}

/// How a cell of `size` bytes under `key` goes into a leaf with the cells
/// `cells` and `free` bytes between its pointers and its content.
///
/// Under a new key, the cell goes in where there is room for it and for
/// its pointer, else by the split of the leaf. Under a key that is
/// there, it takes the place of the old cell where there is room for
/// it; else the old cell goes, the leaf is packed, and the cell goes in
/// as under a new key.
pub open spec fn leaf_way(cells: Seq<CellView>, free: nat, key: Seq<u8>, size: nat) -> Option<
    Option<Seq<u8>>,
> {
    if exists|i: int| 0 <= i < cells.len() && (#[trigger] cells[i]).key == key {
        let rest = cells.remove(
            choose|i: int| 0 <= i < cells.len() && (#[trigger] cells[i]).key == key,
        );
        if free >= size {
            Some(None)
        } else if LEAF_HEADER_SIZE + 2 * (rest.len() + 1) + cells_size(rest) + size <= PAGE_SIZE {
            Some(None)
        } else if leaf_split_takes(rest, key, size) {
            Some(Some(split_key(rest)))
        } else {
            None
        }
    } else if free >= size + 2 {
        Some(None)
    } else if leaf_split_takes(cells, key, size) {
        Some(Some(split_key(cells)))
    } else {
        None
    }
}

/// In a sorted leaf, the cell that holds a key is the one at the index
/// where the key was found.
pub proof fn lemma_leaf_way_at(cells: Seq<CellView>, idx: int, key: Seq<u8>)
    requires
        keys_sorted(cells),
        0 <= idx < cells.len(),
        cells[idx].key == key,
    ensures
        exists|i: int| 0 <= i < cells.len() && (#[trigger] cells[i]).key == key,
        (choose|i: int| 0 <= i < cells.len() && (#[trigger] cells[i]).key == key) == idx,
{
    let i = choose|i: int| 0 <= i < cells.len() && (#[trigger] cells[i]).key == key;
    lemma_key_lt_irreflexive(key);
    if i < idx {
        assert(key_lt(cells[i].key, cells[idx].key));
    } else if idx < i {
        assert(key_lt(cells[idx].key, cells[i].key));
    }
}

/// How a cell of `size` bytes under `key` goes into the subtree of `id`,
/// by the room that its pages have.
///
/// `Some(None)`: it goes in, and the subtree stays one. `Some(Some(sep))`:
/// it goes in, and the page `id` is split; `sep` moves up. `None`: a
/// page on the way has no room, split or not.
///
/// A leaf takes the cell as `leaf_way` says. An interior page takes what
/// its child for the key passes up: where it has room, else by its
/// split.
pub open spec fn way_in(s: Store, id: u32, h: nat, key: Seq<u8>, size: nat) -> Option<
    Option<Seq<u8>>,
>
    decreases h,
{
    let v = page_at(s, id);
    if h == 0 || !s.contains_key(id) || PageHeader::spec_read(s[id]) is None {
        None
    } else if h == 1 {
        leaf_way(v.cells, PageHeader::spec_read(s[id]).unwrap().spec_free_space() as nat, key, size)
    } else {
        match way_in(s, child_for(v, key).0, (h - 1) as nat, key, size) {
            None => None,
            Some(None) => Some(None),
            Some(Some(sep)) => if separator_fits(s[id], sep) {
                Some(None)
            } else if interior_split_takes(v.cells, sep) {
                Some(Some(split_key(v.cells)))
            } else {
                None
            },
        }
    }
}

/// The value of `key` in the tree of root `root`; a tree without root
/// holds nothing.
pub open spec fn tree_get(s: Store, root: u32, h: nat, key: Seq<u8>) -> Option<Seq<u8>> {
    if root == 0 {
        None
    } else {
        subtree_get(s, root, h, key)
    }
}

/// The tree as a map from keys to values.
pub open spec fn tree_map(s: Store, root: u32, h: nat) -> Map<Seq<u8>, Seq<u8>> {
    Map::new(
        |k: Seq<u8>| tree_get(s, root, h, k) is Some,
        |k: Seq<u8>| tree_get(s, root, h, k).unwrap(),
    )
}

/// The child to which an interior page sends `key` is one of its
/// children, and `key` lies within the separators around it.
pub proof fn lemma_route(v: PageView, key: Seq<u8>, lo: Bound, hi: Bound)
    requires
        keys_sorted(v.cells),
        above(lo, key),
        below(key, hi),
    ensures
        0 <= child_slot(v.cells, key) <= v.cells.len(),
        child_for(v, key).0 == child_of(v, child_slot(v.cells, key) as int),
        above(child_lo(v, child_slot(v.cells, key) as int, lo), key),
        below(key, child_hi(v, child_slot(v.cells, key) as int, hi)),
{
    lemma_child_slot(v.cells, key);
}

/// A key within the separators around child `j` is sent to child `j`.
pub proof fn lemma_route_is(v: PageView, key: Seq<u8>, j: int, lo: Bound, hi: Bound)
    requires
        keys_sorted(v.cells),
        0 <= j <= v.cells.len(),
        above(child_lo(v, j, lo), key),
        below(key, child_hi(v, j, hi)),
    ensures
        child_slot(v.cells, key) == j,
        child_for(v, key).0 == child_of(v, j),
{
    assert forall|i: int| 0 <= i < j implies key_le(#[trigger] v.cells[i].key, key) by {
        if i < j - 1 {
            assert(key_lt(v.cells[i].key, v.cells[j - 1].key));
            lemma_key_lt_le(v.cells[i].key, v.cells[j - 1].key, key);
        }
    }
    assert forall|i: int| j <= i < v.cells.len() implies key_lt(key, #[trigger] v.cells[i].key) by {
        if i > j {
            assert(key_lt(v.cells[j].key, v.cells[i].key));
            lemma_key_lt_transitive(key, v.cells[j].key, v.cells[i].key);
        }
    }
    lemma_child_slot_is(v.cells, key, j);
}

/// In a well-formed subtree of height above 1 the page is interior, its
/// separators ascend, and the bounds of its children lie within its own.
pub proof fn lemma_child_bounds(v: PageView, j: int, lo: Bound, hi: Bound, key: Seq<u8>)
    requires
        keys_sorted(v.cells),
        0 <= j <= v.cells.len(),
        forall|i: int|
            0 <= i < v.cells.len() ==> strictly_above(lo, (#[trigger] v.cells[i]).key) && below(
                v.cells[i].key,
                hi,
            ),
        above(child_lo(v, j, lo), key),
        below(key, child_hi(v, j, hi)),
    ensures
        above(lo, key),
        below(key, hi),
{
    if j > 0 {
        let c = v.cells[j - 1];
        assert(strictly_above(lo, c.key));
        if lo is Some {
            lemma_key_lt_le(lo.unwrap(), c.key, key);
        }
    }
    if j < v.cells.len() {
        let c = v.cells[j];
        assert(below(c.key, hi));
        if hi is Some {
            lemma_key_lt_transitive(key, c.key, hi.unwrap());
        }
    }
}

/// A store that holds the pages of a well-formed subtree as they are
/// holds the same subtree: well formed, of the same pages, with the same
/// values.
pub proof fn lemma_frame(s: Store, t: Store, id: u32, h: nat, lo: Bound, hi: Bound)
    requires
        subtree_wf(s, id, h, lo, hi),
        forall|x: u32| #[trigger] in_subtree(s, id, h, x) ==> t.contains_key(x) && t[x] == s[x],
    ensures
        subtree_wf(t, id, h, lo, hi),
        forall|x: u32|
            #![trigger in_subtree(t, id, h, x)]
            in_subtree(t, id, h, x) == in_subtree(s, id, h, x),
        forall|k: Seq<u8>|
            #![trigger subtree_get(t, id, h, k)]
            subtree_get(t, id, h, k) == subtree_get(s, id, h, k),
    decreases h, 1nat,
{
    assert(in_subtree(s, id, h, id));
    assert(page_at(t, id) == page_at(s, id));
    if h > 1 {
        let v = page_at(s, id);
        let g = (h - 1) as nat;
        lemma_subtree_children(s, id, h, lo, hi);
        lemma_subtree_children(t, id, h, lo, hi);
        assert forall|j: int| 0 <= j <= v.cells.len() implies {
            &&& subtree_wf(t, #[trigger] child_of(v, j), g, child_lo(v, j, lo), child_hi(v, j, hi))
            &&& forall|x: u32|
                #![trigger in_subtree(t, child_of(v, j), g, x)]
                in_subtree(t, child_of(v, j), g, x) == in_subtree(s, child_of(v, j), g, x)
            &&& forall|k: Seq<u8>|
                #![trigger subtree_get(t, child_of(v, j), g, k)]
                subtree_get(t, child_of(v, j), g, k) == subtree_get(s, child_of(v, j), g, k)
        } by {
            lemma_frame_child(s, t, id, h, lo, hi, j);
        }
        assert forall|x: u32|
            #![trigger in_children(t, v, h, x)]
            in_children(t, v, h, x) == in_children(s, v, h, x) by {
            if in_children(s, v, h, x) {
                let j = choose|j: int|
                    0 <= j <= v.cells.len() && in_subtree(s, #[trigger] child_of(v, j), g, x);
                assert(in_subtree(t, child_of(v, j), g, x));
            }
            if in_children(t, v, h, x) {
                let j = choose|j: int|
                    0 <= j <= v.cells.len() && in_subtree(t, #[trigger] child_of(v, j), g, x);
                assert(in_subtree(s, child_of(v, j), g, x));
            }
        }
        assert forall|j: int, k: int, x: u32| 0 <= j < k <= v.cells.len() implies !(
        #[trigger] in_subtree(t, child_of(v, j), g, x) && #[trigger] in_subtree(
            t,
            child_of(v, k),
            g,
            x,
        )) by {
            assert(in_subtree(t, child_of(v, j), g, x) == in_subtree(s, child_of(v, j), g, x));
            assert(in_subtree(t, child_of(v, k), g, x) == in_subtree(s, child_of(v, k), g, x));
        }
        assert forall|k: Seq<u8>|
            #![trigger subtree_get(t, id, h, k)]
            subtree_get(t, id, h, k) == subtree_get(s, id, h, k) by {
            lemma_child_slot(v.cells, k);
            let j = child_slot(v.cells, k) as int;
            assert(child_for(v, k).0 == child_of(v, j));
            assert(subtree_get(t, child_of(v, j), g, k) == subtree_get(s, child_of(v, j), g, k));
        }
    }
}

/// The frame property for child `j` of a subtree.
proof fn lemma_frame_child(s: Store, t: Store, id: u32, h: nat, lo: Bound, hi: Bound, j: int)
    requires
        h >= 2,
        subtree_wf(s, id, h, lo, hi),
        forall|x: u32| #[trigger] in_subtree(s, id, h, x) ==> t.contains_key(x) && t[x] == s[x],
        0 <= j <= page_at(s, id).cells.len(),
    ensures
        subtree_wf(
            t,
            child_of(page_at(s, id), j),
            (h - 1) as nat,
            child_lo(page_at(s, id), j, lo),
            child_hi(page_at(s, id), j, hi),
        ),
        forall|x: u32|
            #![trigger in_subtree(t, child_of(page_at(s, id), j), (h - 1) as nat, x)]
            in_subtree(t, child_of(page_at(s, id), j), (h - 1) as nat, x) == in_subtree(
                s,
                child_of(page_at(s, id), j),
                (h - 1) as nat,
                x,
            ),
        forall|k: Seq<u8>|
            #![trigger subtree_get(t, child_of(page_at(s, id), j), (h - 1) as nat, k)]
            subtree_get(t, child_of(page_at(s, id), j), (h - 1) as nat, k) == subtree_get(
                s,
                child_of(page_at(s, id), j),
                (h - 1) as nat,
                k,
            ),
    decreases h, 0nat,
{
    let v = page_at(s, id);
    let g = (h - 1) as nat;
    let c = child_of(v, j);
    lemma_subtree_children(s, id, h, lo, hi);
    assert(subtree_wf(s, c, g, child_lo(v, j, lo), child_hi(v, j, hi)));
    assert forall|x: u32| #[trigger] in_subtree(s, c, g, x) implies t.contains_key(x) && t[x]
        == s[x] by {
        assert(in_children(s, v, h, x));
        assert(in_subtree(s, id, h, x));
    }
    lemma_frame(s, t, c, g, child_lo(v, j, lo), child_hi(v, j, hi));
}

/// In sorted cells, the value of the key of cell `i` is the value of
/// cell `i`.
pub proof fn lemma_leaf_get_at(cells: Seq<CellView>, i: int)
    requires
        keys_sorted(cells),
        0 <= i < cells.len(),
    ensures
        leaf_get(cells, cells[i].key) == Some(cells[i].value),
{
    let j = choose|j: int| 0 <= j < cells.len() && (#[trigger] cells[j]).key == cells[i].key;
    if j < i {
        assert(key_lt(cells[j].key, cells[i].key));
        lemma_key_lt_irreflexive(cells[i].key);
    } else if i < j {
        assert(key_lt(cells[i].key, cells[j].key));
        lemma_key_lt_irreflexive(cells[i].key);
    }
}

/// A value that a subtree holds lies under a key within its bounds.
pub proof fn lemma_get_in_bounds(s: Store, id: u32, h: nat, lo: Bound, hi: Bound, key: Seq<u8>)
    requires
        subtree_wf(s, id, h, lo, hi),
        subtree_get(s, id, h, key) is Some,
    ensures
        above(lo, key),
        below(key, hi),
    decreases h,
{
    let v = page_at(s, id);
    if h == 1 {
        let i = choose|i: int| 0 <= i < v.cells.len() && (#[trigger] v.cells[i]).key == key;
        assert(above(lo, v.cells[i].key));
    } else {
        lemma_subtree_children(s, id, h, lo, hi);
        lemma_child_slot(v.cells, key);
        let j = child_slot(v.cells, key) as int;
        let g = (h - 1) as nat;
        assert(subtree_wf(s, child_of(v, j), g, child_lo(v, j, lo), child_hi(v, j, hi)));
        lemma_get_in_bounds(s, child_of(v, j), g, child_lo(v, j, lo), child_hi(v, j, hi), key);
        lemma_child_bounds(v, j, lo, hi, key);
    }
}

/// What a leaf holds once the cell `i` is gone: nothing under the key of
/// that cell, and under any other key what it held.
pub proof fn lemma_leaf_get_remove(cells: Seq<CellView>, i: int, key: Seq<u8>)
    requires
        keys_sorted(cells),
        0 <= i < cells.len(),
    ensures
        leaf_get(cells.remove(i), key) == (if key == cells[i].key {
            None
        } else {
            leaf_get(cells, key)
        }),
{
    let t = cells.remove(i);
    if exists|a: int| 0 <= a < t.len() && (#[trigger] t[a]).key == key {
        let a = choose|a: int| 0 <= a < t.len() && (#[trigger] t[a]).key == key;
        let src = if a < i { a } else { a + 1 };
        assert(t[a] == cells[src]);
        lemma_leaf_get_at(cells, src);
        if src < i {
            assert(key_lt(cells[src].key, cells[i].key));
        } else {
            assert(key_lt(cells[i].key, cells[src].key));
        }
        lemma_key_lt_irreflexive(key);
    } else {
        if key != cells[i].key && exists|b: int|
            0 <= b < cells.len() && (#[trigger] cells[b]).key == key {
            let b = choose|b: int| 0 <= b < cells.len() && (#[trigger] cells[b]).key == key;
            let dst = if b < i { b } else { b - 1 };
            assert(t[dst] == cells[b]);
        }
    }
}

/// What a leaf holds once a cell of a new key is in: the value of the
/// cell under its key, and under any other key what it held.
pub proof fn lemma_leaf_get_insert(cells: Seq<CellView>, pos: int, c: CellView, key: Seq<u8>)
    requires
        keys_sorted(cells.insert(pos, c)),
        0 <= pos <= cells.len(),
    ensures
        leaf_get(cells.insert(pos, c), key) == (if key == c.key {
            Some(c.value)
        } else {
            leaf_get(cells, key)
        }),
{
    let t = cells.insert(pos, c);
    assert(t[pos] == c);
    if key == c.key {
        lemma_leaf_get_at(t, pos);
    } else {
        if exists|a: int| 0 <= a < t.len() && (#[trigger] t[a]).key == key {
            let a = choose|a: int| 0 <= a < t.len() && (#[trigger] t[a]).key == key;
            let src = if a < pos { a } else { a - 1 };
            assert(t[a] == cells[src]);
            lemma_leaf_get_at(t, a);
            lemma_sorted_without(cells, pos, c);
            lemma_leaf_get_at(cells, src);
        } else {
            if exists|b: int| 0 <= b < cells.len() && (#[trigger] cells[b]).key == key {
                let b = choose|b: int| 0 <= b < cells.len() && (#[trigger] cells[b]).key == key;
                let dst = if b < pos { b } else { b + 1 };
                assert(t[dst] == cells[b]);
            }
        }
    }
}

/// Cells are sorted if they are with one more cell.
pub proof fn lemma_sorted_without(cells: Seq<CellView>, pos: int, c: CellView)
    requires
        keys_sorted(cells.insert(pos, c)),
        0 <= pos <= cells.len(),
    ensures
        keys_sorted(cells),
{
    let t = cells.insert(pos, c);
    assert forall|i: int, j: int| 0 <= i < j < cells.len() implies key_lt(
        #[trigger] cells[i].key,
        #[trigger] cells[j].key,
    ) by {
        let a = if i < pos { i } else { i + 1 };
        let b = if j < pos { j } else { j + 1 };
        assert(t[a] == cells[i] && t[b] == cells[j]);
        assert(key_lt(t[a].key, t[b].key));
    }
}

/// What a leaf holds once the value of cell `i` is replaced.
pub proof fn lemma_leaf_get_update(cells: Seq<CellView>, i: int, c: CellView, key: Seq<u8>)
    requires
        keys_sorted(cells),
        0 <= i < cells.len(),
        c.key == cells[i].key,
    ensures
        keys_sorted(cells.update(i, c)),
        leaf_get(cells.update(i, c), key) == (if key == c.key {
            Some(c.value)
        } else {
            leaf_get(cells, key)
        }),
{
    let t = cells.update(i, c);
    assert forall|a: int, b: int| 0 <= a < b < t.len() implies key_lt(
        #[trigger] t[a].key,
        #[trigger] t[b].key,
    ) by {
        assert(t[a].key == cells[a].key && t[b].key == cells[b].key);
    }
    if key == c.key {
        lemma_leaf_get_at(t, i);
    } else {
        if exists|a: int| 0 <= a < t.len() && (#[trigger] t[a]).key == key {
            let a = choose|a: int| 0 <= a < t.len() && (#[trigger] t[a]).key == key;
            assert(t[a] == cells[a]);
            lemma_leaf_get_at(t, a);
            lemma_leaf_get_at(cells, a);
        } else {
            if exists|b: int| 0 <= b < cells.len() && (#[trigger] cells[b]).key == key {
                let b = choose|b: int| 0 <= b < cells.len() && (#[trigger] cells[b]).key == key;
                assert(t[b] == cells[b]);
            }
        }
    }
}

/// Store `t` is store `s` but for the pages of the subtree of `id` and
/// for the pages in `fresh`.
pub open spec fn same_outside(s: Store, t: Store, id: u32, h: nat, fresh: Set<u32>) -> bool {
    forall|x: u32|
        !in_subtree(s, id, h, x) && !fresh.contains(x) ==> (#[trigger] t.contains_key(x)
            == s.contains_key(x)) && (s.contains_key(x) ==> t[x] == s[x])
}

/// The pages of the subtree of `id` in `t` are pages of that subtree in
/// `s` or fresh ones.
pub open spec fn grown_from(s: Store, t: Store, id: u32, h: nat, fresh: Set<u32>) -> bool {
    forall|x: u32| #[trigger]
        in_subtree(t, id, h, x) ==> in_subtree(s, id, h, x) || fresh.contains(x)
}

/// A subtree whose child `j` was changed in place is well formed, and
/// holds under every key what the changed child holds if the key is sent
/// there, and what it held if not.
///
/// The child is well formed within its old bounds; its pages are pages
/// that it had or fresh ones; nothing else has changed in the store.
pub proof fn lemma_child_updated(
    s: Store,
    t: Store,
    id: u32,
    h: nat,
    lo: Bound,
    hi: Bound,
    j: int,
    fresh: Set<u32>,
)
    requires
        h >= 2,
        subtree_wf(s, id, h, lo, hi),
        0 <= j <= page_at(s, id).cells.len(),
        forall|x: u32| #[trigger] in_subtree(s, id, h, x) ==> !fresh.contains(x),
        subtree_wf(
            t,
            child_of(page_at(s, id), j),
            (h - 1) as nat,
            child_lo(page_at(s, id), j, lo),
            child_hi(page_at(s, id), j, hi),
        ),
        grown_from(s, t, child_of(page_at(s, id), j), (h - 1) as nat, fresh),
        same_outside(s, t, child_of(page_at(s, id), j), (h - 1) as nat, fresh),
    ensures
        subtree_wf(t, id, h, lo, hi),
        page_at(t, id) == page_at(s, id),
        grown_from(s, t, id, h, fresh),
        same_outside(s, t, id, h, fresh),
        forall|x: u32| #[trigger]
            in_subtree(t, id, h, x) ==> in_subtree(s, id, h, x) || in_subtree(
                t,
                child_of(page_at(s, id), j),
                (h - 1) as nat,
                x,
            ),
        forall|k: Seq<u8>|
            #![trigger subtree_get(t, id, h, k)]
            subtree_get(t, id, h, k) == (if child_slot(page_at(s, id).cells, k) == j {
                subtree_get(t, child_of(page_at(s, id), j), (h - 1) as nat, k)
            } else {
                subtree_get(s, id, h, k)
            }),
{
    let v = page_at(s, id);
    let g = (h - 1) as nat;
    let c = child_of(v, j);
    lemma_subtree_children(s, id, h, lo, hi);
    lemma_subtree_children(t, id, h, lo, hi);
    assert(in_subtree(s, id, h, id));
    assert(!in_subtree(s, c, g, id));
    assert(t.contains_key(id) == s.contains_key(id));
    assert(t[id] == s[id]);
    assert(page_at(t, id) == v);
    assert forall|i: int| 0 <= i <= v.cells.len() && i != j implies {
        &&& subtree_wf(t, #[trigger] child_of(v, i), g, child_lo(v, i, lo), child_hi(v, i, hi))
        &&& forall|x: u32|
            #![trigger in_subtree(t, child_of(v, i), g, x)]
            in_subtree(t, child_of(v, i), g, x) == in_subtree(s, child_of(v, i), g, x)
        &&& forall|k: Seq<u8>|
            #![trigger subtree_get(t, child_of(v, i), g, k)]
            subtree_get(t, child_of(v, i), g, k) == subtree_get(s, child_of(v, i), g, k)
    } by {
        let d = child_of(v, i);
        assert(subtree_wf(s, d, g, child_lo(v, i, lo), child_hi(v, i, hi)));
        assert forall|x: u32| #[trigger] in_subtree(s, d, g, x) implies t.contains_key(x) && t[x]
            == s[x] by {
            assert(in_children(s, v, h, x));
            assert(in_subtree(s, id, h, x));
            if i < j {
                assert(!(in_subtree(s, child_of(v, i), g, x)
                    && in_subtree(s, child_of(v, j), g, x)));
            } else {
                assert(!(in_subtree(s, child_of(v, j), g, x)
                    && in_subtree(s, child_of(v, i), g, x)));
            }
            lemma_in_subtree_has(s, d, g, child_lo(v, i, lo), child_hi(v, i, hi), x);
            assert(t.contains_key(x) == s.contains_key(x));
        }
        lemma_frame(s, t, d, g, child_lo(v, i, lo), child_hi(v, i, hi));
    }
    assert forall|i: int| 0 <= i <= v.cells.len() implies subtree_wf(
        t,
        #[trigger] child_of(v, i),
        g,
        child_lo(v, i, lo),
        child_hi(v, i, hi),
    ) by {}
    assert forall|x: u32| #[trigger] in_subtree(t, id, h, x) implies (in_subtree(s, id, h, x)
        || fresh.contains(x)) && (in_subtree(s, id, h, x) || in_subtree(t, c, g, x)) by {
        if x != id {
            assert(in_children(t, v, h, x));
            let i = choose|i: int|
                0 <= i <= v.cells.len() && in_subtree(t, #[trigger] child_of(v, i), g, x);
            if i == j {
                assert(in_subtree(s, c, g, x) || fresh.contains(x));
                if in_subtree(s, c, g, x) {
                    assert(in_children(s, v, h, x));
                }
            } else {
                assert(in_subtree(s, child_of(v, i), g, x));
                assert(in_children(s, v, h, x));
            }
        }
    }
    assert forall|a: int, b: int, x: u32| 0 <= a < b <= v.cells.len() implies !(
    #[trigger] in_subtree(t, child_of(v, a), g, x) && #[trigger] in_subtree(
        t,
        child_of(v, b),
        g,
        x,
    )) by {
        if in_subtree(t, child_of(v, a), g, x) && in_subtree(t, child_of(v, b), g, x) {
            let other = if a == j { b } else { a };
            assert(in_subtree(s, child_of(v, other), g, x));
            assert(in_children(s, v, h, x));
            assert(in_subtree(s, id, h, x));
            if a != j && b != j {
                assert(in_subtree(s, child_of(v, a), g, x) && in_subtree(s, child_of(v, b), g, x));
            } else {
                assert(in_subtree(s, c, g, x) || fresh.contains(x));
                assert(in_subtree(s, child_of(v, a), g, x) && in_subtree(s, child_of(v, b), g, x));
            }
        }
    }
    assert forall|i: int| 0 <= i <= v.cells.len() implies !in_subtree(
        t,
        #[trigger] child_of(v, i),
        g,
        id,
    ) by {
        if i == j {
            if in_subtree(t, c, g, id) {
                assert(in_subtree(s, c, g, id) || fresh.contains(id));
            }
        } else {
            assert(!in_subtree(s, child_of(v, i), g, id));
        }
    }
    assert forall|x: u32| !in_subtree(s, id, h, x) && !fresh.contains(x) implies (
    #[trigger] t.contains_key(x) == s.contains_key(x)) && (s.contains_key(x) ==> t[x] == s[x]) by {
        if in_subtree(s, c, g, x) {
            assert(in_children(s, v, h, x));
        }
    }
    assert forall|k: Seq<u8>|
        #![trigger subtree_get(t, id, h, k)]
        subtree_get(t, id, h, k) == (if child_slot(v.cells, k) == j {
            subtree_get(t, c, g, k)
        } else {
            subtree_get(s, id, h, k)
        }) by {
        lemma_child_slot(v.cells, k);
        let i = child_slot(v.cells, k) as int;
        assert(child_for(v, k).0 == child_of(v, i));
        if i != j {
            assert(subtree_get(t, child_of(v, i), g, k) == subtree_get(s, child_of(v, i), g, k));
        }
    }
}

/// A page of a well-formed subtree is in the store, and is a well-formed
/// leaf or interior page.
pub proof fn lemma_in_subtree_has(s: Store, id: u32, h: nat, lo: Bound, hi: Bound, x: u32)
    requires
        subtree_wf(s, id, h, lo, hi),
        in_subtree(s, id, h, x),
    ensures
        s.contains_key(x),
        x != 0,
        image_wf(s[x]),
        page_at(s, x).page_type.spec_is_leaf() || page_at(s, x).page_type.spec_is_interior(),
    decreases h,
{
    if x != id {
        let v = page_at(s, id);
        let j = choose|j: int|
            0 <= j <= v.cells.len() && in_subtree(s, #[trigger] child_of(v, j), (h - 1) as nat, x);
        lemma_in_subtree_has(
            s,
            child_of(v, j),
            (h - 1) as nat,
            child_lo(v, j, lo),
            child_hi(v, j, hi),
            x,
        );
    }
}

/// What holds under `k` once `value` was put under `key`, where `before`
/// held under `k`.
pub open spec fn put_result(k: Seq<u8>, key: Seq<u8>, value: Seq<u8>, before: Option<Seq<u8>>) -> Option<
    Seq<u8>,
> {
    if k == key {
        Some(value)
    } else {
        before
    }
}

/// From one state of the file to a later one: the header changes in its
/// page count at most, the pages in use stay in use, and no page is on
/// the free list twice.
pub open spec fn grows(
    h0: crate::storage::file_header::FileHeader,
    f0: Seq<crate::types::page_id::PageId>,
    h1: crate::storage::file_header::FileHeader,
    f1: Seq<crate::types::page_id::PageId>,
) -> bool {
    &&& h1 == (crate::storage::file_header::FileHeader { page_count: h1.page_count, ..h0 })
    &&& free_distinct(f1)
    &&& forall|x: u32| #[trigger]
        is_allocated(h0.page_count, f0, x) ==> is_allocated(h1.page_count, f1, x)
}

/// The pages that are not in use.
pub open spec fn not_in_use(page_count: u32, free: Seq<crate::types::page_id::PageId>) -> Set<u32> {
    Set::new(|x: u32| !is_allocated(page_count, free, x))
}

/// A page that the disk manager hands out was not in use and is in use
/// afterwards; nothing else changes its state, and no page is on the
/// free list twice afterwards.
pub proof fn lemma_allocation(
    page_count: u32,
    free: Seq<crate::types::page_id::PageId>,
    page_count2: u32,
    free2: Seq<crate::types::page_id::PageId>,
    id: crate::types::page_id::PageId,
)
    requires
        free_distinct(free),
        0 < id.0 < page_count2,
        if free.len() > 0 {
            id == free[0] && free2 == free.skip(1) && page_count2 == page_count
        } else {
            id.0 == page_count && free2 == free && page_count2 == page_count + 1
        },
    ensures
        free_distinct(free2),
        !is_allocated(page_count, free, id.0),
        is_allocated(page_count2, free2, id.0),
        forall|x: u32|
            x != id.0 ==> #[trigger] is_allocated(page_count2, free2, x) == is_allocated(
                page_count,
                free,
                x,
            ),
{
    if free.len() > 0 {
        assert forall|i: int, j: int| 0 <= i < j < free2.len() implies free2[i] != free2[j] by {
            assert(free2[i] == free[i + 1] && free2[j] == free[j + 1]);
        }
        assert(free.contains(id)) by {
            assert(free[0] == id);
        }
        if free2.contains(id) {
            let i = free2.index_of(id);
            assert(free2[i] == free[i + 1]);
            assert(free[0] != free[i + 1]);
        }
        assert forall|x: u32| x != id.0 implies #[trigger] is_allocated(page_count2, free2, x)
            == is_allocated(page_count, free, x) by {
            let px = crate::types::page_id::PageId(x);
            if free.contains(px) {
                let i = free.index_of(px);
                assert(i > 0);
                assert(free2[i - 1] == px);
            }
            if free2.contains(px) {
                let i = free2.index_of(px);
                assert(free[i + 1] == px);
            }
        }
    }
}

/// The value of `key` under the interior page `v`: what the child holds
/// to which `v` sends the key.
pub open spec fn node_get(s: Store, v: PageView, h: nat, key: Seq<u8>) -> Option<Seq<u8>> {
    subtree_get(s, child_for(v, key).0, (h - 1) as nat, key)
}

/// The interior page `v` with the separator `sep` and its child `new_id`
/// put in at slot `j`.
pub open spec fn with_separator(v: PageView, j: int, sep: Seq<u8>, new_id: u32) -> PageView {
    PageView {
        cells: v.cells.insert(
            j,
            crate::page::cell::interior_view(sep, crate::types::page_id::PageId(new_id)),
        ),
        ..v
    }
}

/// The subtree of `id` was split in two by an insertion: page `id` keeps
/// the keys below `sep`, the fresh page `new_id` holds the keys from
/// `sep` on, and what they hold is what the subtree held, with `value`
/// under `key`.
pub open spec fn inserted_split(
    s: Store,
    t: Store,
    id: u32,
    h: nat,
    lo: Bound,
    hi: Bound,
    key: Seq<u8>,
    value: Seq<u8>,
    sep: Seq<u8>,
    new_id: u32,
    fresh: Set<u32>,
) -> bool {
    &&& strictly_above(lo, sep)
    &&& below(sep, hi)
    &&& subtree_wf(t, id, h, lo, Some(sep))
    &&& subtree_wf(t, new_id, h, Some(sep), hi)
    &&& grown_from(s, t, id, h, fresh)
    &&& forall|x: u32| #[trigger]
        in_subtree(t, new_id, h, x) ==> in_subtree(s, id, h, x) || fresh.contains(x)
    &&& forall|x: u32| !(#[trigger] in_subtree(t, id, h, x) && in_subtree(t, new_id, h, x))
    &&& same_outside(s, t, id, h, fresh)
    &&& forall|k: Seq<u8>|
        #![trigger subtree_get(s, id, h, k)]
        (if key_lt(k, sep) {
            subtree_get(t, id, h, k)
        } else {
            subtree_get(t, new_id, h, k)
        }) == put_result(k, key, value, subtree_get(s, id, h, k))
}

/// The subtree of `id` took an insertion without being split.
pub open spec fn inserted_plain(
    s: Store,
    t: Store,
    id: u32,
    h: nat,
    lo: Bound,
    hi: Bound,
    key: Seq<u8>,
    value: Seq<u8>,
    fresh: Set<u32>,
) -> bool {
    &&& subtree_wf(t, id, h, lo, hi)
    &&& grown_from(s, t, id, h, fresh)
    &&& same_outside(s, t, id, h, fresh)
    &&& forall|k: Seq<u8>|
        #![trigger subtree_get(t, id, h, k)]
        subtree_get(t, id, h, k) == put_result(k, key, value, subtree_get(s, id, h, k))
}

/// What may hold under `k` once a put of `value` under `key` has failed,
/// where `before` held under `k`: what held before, or nothing; under
/// `key`, the value may have come in.
pub open spec fn put_partial(
    now: Option<Seq<u8>>,
    k: Seq<u8>,
    key: Seq<u8>,
    value: Seq<u8>,
    before: Option<Seq<u8>>,
) -> bool {
    now is Some ==> now == before || (k == key && now == Some(value))
}

/// The map `now` holds nothing that `before` did not hold, but for
/// `value` under `key`.
pub open spec fn at_most_put(
    now: Map<Seq<u8>, Seq<u8>>,
    before: Map<Seq<u8>, Seq<u8>>,
    key: Seq<u8>,
    value: Seq<u8>,
) -> bool {
    forall|k: Seq<u8>| #[trigger]
        now.contains_key(k) ==> (before.contains_key(k) && now[k] == before[k]) || (k == key
            && now[k] == value)
}

/// The subtree of `id` after an insertion that failed: it is well formed
/// within its bounds, made of pages that it had or of fresh ones, and
/// holds nothing that it did not hold, but for the new value; nothing
/// else has changed in the store.
pub open spec fn insert_failed(
    s: Store,
    t: Store,
    id: u32,
    h: nat,
    lo: Bound,
    hi: Bound,
    key: Seq<u8>,
    value: Seq<u8>,
    fresh: Set<u32>,
) -> bool {
    &&& subtree_wf(t, id, h, lo, hi)
    &&& grown_from(s, t, id, h, fresh)
    &&& same_outside(s, t, id, h, fresh)
    &&& forall|k: Seq<u8>|
        #![trigger subtree_get(t, id, h, k)]
        put_partial(subtree_get(t, id, h, k), k, key, value, subtree_get(s, id, h, k))
}

/// A subtree none of whose pages has changed is as after an insertion
/// that failed.
pub proof fn lemma_failed_untouched(
    s: Store,
    t: Store,
    id: u32,
    h: nat,
    lo: Bound,
    hi: Bound,
    key: Seq<u8>,
    value: Seq<u8>,
    fresh: Set<u32>,
)
    requires
        subtree_wf(s, id, h, lo, hi),
        forall|x: u32| #[trigger] in_subtree(s, id, h, x) ==> t.contains_key(x) && t[x] == s[x],
        same_outside(s, t, id, h, fresh),
    ensures
        insert_failed(s, t, id, h, lo, hi, key, value, fresh),
{
    lemma_frame(s, t, id, h, lo, hi);
}

/// A subtree that is well formed below a bound is well formed below any
/// later bound.
pub proof fn lemma_widen(s: Store, id: u32, h: nat, lo: Bound, hi: Bound, wider: Bound)
    requires
        subtree_wf(s, id, h, lo, hi),
        wider matches Some(w) ==> hi matches Some(u) && key_le(u, w),
    ensures
        subtree_wf(s, id, h, lo, wider),
    decreases h,
{
    let v = page_at(s, id);
    assert forall|i: int| 0 <= i < v.cells.len() implies below(
        (#[trigger] v.cells[i]).key,
        wider,
    ) by {
        assert(below(v.cells[i].key, hi));
        if wider is Some {
            lemma_key_lt_le(v.cells[i].key, hi.unwrap(), wider.unwrap());
        }
    }
    if h >= 2 {
        let g = (h - 1) as nat;
        let n = v.cells.len() as int;
        lemma_subtree_children(s, id, h, lo, hi);
        lemma_subtree_children(s, id, h, lo, wider);
        assert forall|j: int| 0 <= j <= n implies subtree_wf(
            s,
            #[trigger] child_of(v, j),
            g,
            child_lo(v, j, lo),
            child_hi(v, j, wider),
        ) by {
            assert(subtree_wf(s, child_of(v, j), g, child_lo(v, j, lo), child_hi(v, j, hi)));
            if j == n {
                lemma_widen(s, child_of(v, j), g, child_lo(v, j, lo), hi, wider);
            }
        }
    }
}

/// A subtree that an insertion has split in two, seen without the upper
/// half, is as after an insertion that failed.
pub proof fn lemma_failed_split(
    s: Store,
    t: Store,
    id: u32,
    h: nat,
    lo: Bound,
    hi: Bound,
    key: Seq<u8>,
    value: Seq<u8>,
    sep: Seq<u8>,
    new_id: u32,
    fresh: Set<u32>,
)
    requires
        inserted_split(s, t, id, h, lo, hi, key, value, sep, new_id, fresh),
    ensures
        insert_failed(s, t, id, h, lo, hi, key, value, fresh),
{
    lemma_widen(t, id, h, lo, Some(sep), hi);
    assert forall|k: Seq<u8>|
        #![trigger subtree_get(t, id, h, k)]
        put_partial(subtree_get(t, id, h, k), k, key, value, subtree_get(s, id, h, k)) by {
        if subtree_get(t, id, h, k) is Some {
            lemma_get_in_bounds(t, id, h, lo, Some(sep), k);
            assert(key_lt(k, sep));
            assert(subtree_get(t, id, h, k) == put_result(
                k,
                key,
                value,
                subtree_get(s, id, h, k),
            ));
        }
    }
}

/// A subtree whose child for the key is as after an insertion that
/// failed, and which is unchanged otherwise, is so itself.
pub proof fn lemma_failed_child(
    s: Store,
    t: Store,
    id: u32,
    h: nat,
    lo: Bound,
    hi: Bound,
    key: Seq<u8>,
    value: Seq<u8>,
    fresh: Set<u32>,
)
    requires
        h >= 2,
        subtree_wf(s, id, h, lo, hi),
        forall|x: u32| #[trigger] in_subtree(s, id, h, x) ==> !fresh.contains(x),
        insert_failed(
            s,
            t,
            child_for(page_at(s, id), key).0,
            (h - 1) as nat,
            child_lo(page_at(s, id), child_slot(page_at(s, id).cells, key) as int, lo),
            child_hi(page_at(s, id), child_slot(page_at(s, id).cells, key) as int, hi),
            key,
            value,
            fresh,
        ),
    ensures
        insert_failed(s, t, id, h, lo, hi, key, value, fresh),
{
    let v = page_at(s, id);
    let j = child_slot(v.cells, key) as int;
    let g = (h - 1) as nat;
    lemma_subtree_children(s, id, h, lo, hi);
    lemma_image_view_wf(s[id]);
    lemma_child_slot(v.cells, key);
    assert(child_for(v, key).0 == child_of(v, j));
    lemma_child_updated(s, t, id, h, lo, hi, j, fresh);
    assert forall|k: Seq<u8>|
        #![trigger subtree_get(t, id, h, k)]
        put_partial(subtree_get(t, id, h, k), k, key, value, subtree_get(s, id, h, k)) by {
        if child_slot(v.cells, k) == j {
            lemma_child_slot(v.cells, k);
            assert(child_for(v, k).0 == child_of(v, j));
            assert(subtree_get(s, id, h, k) == subtree_get(s, child_of(v, j), g, k));
            assert(put_partial(
                subtree_get(t, child_of(v, j), g, k),
                k,
                key,
                value,
                subtree_get(s, child_of(v, j), g, k),
            ));
        }
    }
}

/// A page whose children are well formed, and which none of them holds,
/// is the root of a well-formed subtree in any store that has the page
/// and the pages of the children as they are.
pub proof fn lemma_node_commit(
    t: Store,
    u: Store,
    id: u32,
    w: PageView,
    h: nat,
    lo: Bound,
    hi: Bound,
)
    requires
        children_wf(t, w, h, lo, hi),
        id != 0,
        !in_children(t, w, h, id),
        forall|x: u32| #[trigger] in_children(t, w, h, x) ==> u.contains_key(x) && u[x] == t[x],
        u.contains_key(id),
        image_wf(u[id]),
        page_at(u, id) == w,
    ensures
        subtree_wf(u, id, h, lo, hi),
        forall|x: u32|
            #![trigger in_subtree(u, id, h, x)]
            in_subtree(u, id, h, x) == (x == id || in_children(t, w, h, x)),
        forall|k: Seq<u8>|
            #![trigger subtree_get(u, id, h, k)]
            subtree_get(u, id, h, k) == node_get(t, w, h, k),
{
    let g = (h - 1) as nat;
    lemma_subtree_children(u, id, h, lo, hi);
    assert forall|j: int| 0 <= j <= w.cells.len() implies {
        &&& subtree_wf(u, #[trigger] child_of(w, j), g, child_lo(w, j, lo), child_hi(w, j, hi))
        &&& forall|x: u32|
            #![trigger in_subtree(u, child_of(w, j), g, x)]
            in_subtree(u, child_of(w, j), g, x) == in_subtree(t, child_of(w, j), g, x)
        &&& forall|k: Seq<u8>|
            #![trigger subtree_get(u, child_of(w, j), g, k)]
            subtree_get(u, child_of(w, j), g, k) == subtree_get(t, child_of(w, j), g, k)
    } by {
        let c = child_of(w, j);
        assert(subtree_wf(t, c, g, child_lo(w, j, lo), child_hi(w, j, hi)));
        assert forall|x: u32| #[trigger] in_subtree(t, c, g, x) implies u.contains_key(x) && u[x]
            == t[x] by {
            assert(in_children(t, w, h, x));
        }
        lemma_frame(t, u, c, g, child_lo(w, j, lo), child_hi(w, j, hi));
    }
    assert forall|x: u32|
        #![trigger in_children(u, w, h, x)]
        in_children(u, w, h, x) == in_children(t, w, h, x) by {
        if in_children(t, w, h, x) {
            let j = choose|j: int|
                0 <= j <= w.cells.len() && in_subtree(t, #[trigger] child_of(w, j), g, x);
            assert(in_subtree(u, child_of(w, j), g, x));
        }
        if in_children(u, w, h, x) {
            let j = choose|j: int|
                0 <= j <= w.cells.len() && in_subtree(u, #[trigger] child_of(w, j), g, x);
            assert(in_subtree(t, child_of(w, j), g, x));
        }
    }
    assert forall|a: int, b: int, x: u32| 0 <= a < b <= w.cells.len() implies !(
    #[trigger] in_subtree(u, child_of(w, a), g, x) && #[trigger] in_subtree(
        u,
        child_of(w, b),
        g,
        x,
    )) by {
        assert(in_subtree(u, child_of(w, a), g, x) == in_subtree(t, child_of(w, a), g, x));
        assert(in_subtree(u, child_of(w, b), g, x) == in_subtree(t, child_of(w, b), g, x));
    }
    assert forall|j: int| 0 <= j <= w.cells.len() implies !in_subtree(
        u,
        #[trigger] child_of(w, j),
        g,
        id,
    ) by {
        assert(in_subtree(u, child_of(w, j), g, id) == in_subtree(t, child_of(w, j), g, id));
    }
    assert forall|k: Seq<u8>|
        #![trigger subtree_get(u, id, h, k)]
        subtree_get(u, id, h, k) == node_get(t, w, h, k) by {
        lemma_child_slot(w.cells, k);
        let j = child_slot(w.cells, k) as int;
        assert(child_for(w, k).0 == child_of(w, j));
        assert(subtree_get(u, child_of(w, j), g, k) == subtree_get(t, child_of(w, j), g, k));
    }
}

/// Child `j` of the interior page `v` was split: in `t` it holds the keys
/// below `sep` and the page `new_id` those from `sep` on; both are well
/// formed, made of pages of the child or fresh ones, and share no page;
/// nothing else has changed from `s` to `t`.
pub open spec fn child_was_split(
    s: Store,
    t: Store,
    v: PageView,
    h: nat,
    lo: Bound,
    hi: Bound,
    j: int,
    sep: Seq<u8>,
    new_id: u32,
    fresh: Set<u32>,
) -> bool {
    &&& children_wf(s, v, h, lo, hi)
    &&& 0 <= j <= v.cells.len()
    &&& forall|x: u32| #[trigger] in_children(s, v, h, x) ==> !fresh.contains(x)
    &&& strictly_above(child_lo(v, j, lo), sep)
    &&& below(sep, child_hi(v, j, hi))
    &&& subtree_wf(t, child_of(v, j), (h - 1) as nat, child_lo(v, j, lo), Some(sep))
    &&& subtree_wf(t, new_id, (h - 1) as nat, Some(sep), child_hi(v, j, hi))
    &&& grown_from(s, t, child_of(v, j), (h - 1) as nat, fresh)
    &&& forall|x: u32| #[trigger]
        in_subtree(t, new_id, (h - 1) as nat, x) ==> in_subtree(
            s,
            child_of(v, j),
            (h - 1) as nat,
            x,
        ) || fresh.contains(x)
    &&& forall|x: u32|
        !(#[trigger] in_subtree(t, child_of(v, j), (h - 1) as nat, x) && in_subtree(
            t,
            new_id,
            (h - 1) as nat,
            x,
        ))
    &&& same_outside(s, t, child_of(v, j), (h - 1) as nat, fresh)
}

/// Slot `i` of a page with a separator put in at slot `j`, in terms of
/// the slots of the page without it.
pub open spec fn slot_before(j: int, i: int) -> int {
    if i <= j {
        i
    } else {
        i - 1
    }
}

/// Children and bounds of a page with a separator put in at slot `j`.
proof fn lemma_with_separator_slots(
    v: PageView,
    lo: Bound,
    hi: Bound,
    j: int,
    sep: Seq<u8>,
    new_id: u32,
)
    requires
        0 <= j <= v.cells.len(),
    ensures
        with_separator(v, j, sep, new_id).cells.len() == v.cells.len() + 1,
        with_separator(v, j, sep, new_id).cells[j].key == sep,
        forall|i: int|
            0 <= i <= v.cells.len() + 1 ==> #[trigger] child_of(
                with_separator(v, j, sep, new_id),
                i,
            ) == (if i <= j {
                child_of(v, i)
            } else if i == j + 1 {
                new_id
            } else {
                child_of(v, i - 1)
            }),
        forall|i: int|
            0 <= i <= v.cells.len() + 1 ==> #[trigger] child_lo(
                with_separator(v, j, sep, new_id),
                i,
                lo,
            ) == (if i <= j {
                child_lo(v, i, lo)
            } else if i == j + 1 {
                Some(sep)
            } else {
                child_lo(v, i - 1, lo)
            }),
        forall|i: int|
            0 <= i <= v.cells.len() + 1 ==> #[trigger] child_hi(
                with_separator(v, j, sep, new_id),
                i,
                hi,
            ) == (if i < j {
                child_hi(v, i, hi)
            } else if i == j {
                Some(sep)
            } else {
                child_hi(v, i - 1, hi)
            }),
        forall|i: int|
            0 <= i <= v.cells.len() && i != j ==> (#[trigger] with_separator(
                v,
                j,
                sep,
                new_id,
            ).cells[i]) == v.cells[if i < j {
                i
            } else {
                i - 1
            }],
{
    let w = with_separator(v, j, sep, new_id);
    let n = v.cells.len() as int;
    assert forall|i: int| 0 <= i <= n && i != j implies (#[trigger] w.cells[i]) == v.cells[if i
        < j {
        i
    } else {
        i - 1
    }] by {}
    assert forall|i: int| 0 <= i <= n + 1 implies #[trigger] child_of(w, i) == (if i <= j {
        child_of(v, i)
    } else if i == j + 1 {
        new_id
    } else {
        child_of(v, i - 1)
    }) by {
        if i > 0 && i - 1 != j {
            assert(w.cells[i - 1] == v.cells[if i - 1 < j { i - 1 } else { i - 2 }]);
        }
    }
    assert forall|i: int| 0 <= i <= n + 1 implies #[trigger] child_lo(w, i, lo) == (if i <= j {
        child_lo(v, i, lo)
    } else if i == j + 1 {
        Some(sep)
    } else {
        child_lo(v, i - 1, lo)
    }) by {
        if i > 0 && i - 1 != j {
            assert(w.cells[i - 1] == v.cells[if i - 1 < j { i - 1 } else { i - 2 }]);
        }
    }
    assert forall|i: int| 0 <= i <= n + 1 implies #[trigger] child_hi(w, i, hi) == (if i < j {
        child_hi(v, i, hi)
    } else if i == j {
        Some(sep)
    } else {
        child_hi(v, i - 1, hi)
    }) by {
        if i < n + 1 && i != j {
            assert(w.cells[i] == v.cells[if i < j { i } else { i - 1 }]);
        }
    }
}

/// A separator between the separators around slot `j` keeps the
/// separators sorted and within the bounds.
proof fn lemma_with_separator_sorted(
    v: PageView,
    lo: Bound,
    hi: Bound,
    j: int,
    sep: Seq<u8>,
    new_id: u32,
)
    requires
        keys_sorted(v.cells),
        0 <= j <= v.cells.len(),
        forall|i: int|
            0 <= i < v.cells.len() ==> strictly_above(lo, (#[trigger] v.cells[i]).key) && below(
                v.cells[i].key,
                hi,
            ),
        strictly_above(child_lo(v, j, lo), sep),
        below(sep, child_hi(v, j, hi)),
    ensures
        keys_sorted(with_separator(v, j, sep, new_id).cells),
        forall|i: int|
            0 <= i < with_separator(v, j, sep, new_id).cells.len() ==> strictly_above(
                lo,
                (#[trigger] with_separator(v, j, sep, new_id).cells[i]).key,
            ) && below(with_separator(v, j, sep, new_id).cells[i].key, hi),
{
    let w = with_separator(v, j, sep, new_id);
    let n = v.cells.len() as int;
    lemma_with_separator_slots(v, lo, hi, j, sep, new_id);
    assert forall|a: int, b: int| 0 <= a < b < w.cells.len() implies key_lt(
        #[trigger] w.cells[a].key,
        #[trigger] w.cells[b].key,
    ) by {
        let sa = if a < j { a } else { a - 1 };
        let sb = if b < j { b } else { b - 1 };
        if a == j {
            assert(key_lt(sep, v.cells[j].key));
            if sb > j {
                assert(key_lt(v.cells[j].key, v.cells[sb].key));
                lemma_key_lt_transitive(sep, v.cells[j].key, v.cells[sb].key);
            }
        } else if b == j {
            assert(key_lt(v.cells[j - 1].key, sep));
            if sa < j - 1 {
                assert(key_lt(v.cells[sa].key, v.cells[j - 1].key));
                lemma_key_lt_transitive(v.cells[sa].key, v.cells[j - 1].key, sep);
            }
        } else {
            assert(key_lt(v.cells[sa].key, v.cells[sb].key));
        }
    }
    assert forall|i: int| 0 <= i < w.cells.len() implies strictly_above(
        lo,
        (#[trigger] w.cells[i]).key,
    ) && below(w.cells[i].key, hi) by {
        if i == j {
            if j > 0 {
                assert(strictly_above(lo, v.cells[j - 1].key));
                if lo is Some {
                    lemma_key_lt_transitive(lo.unwrap(), v.cells[j - 1].key, sep);
                }
            }
            if j < n {
                assert(below(v.cells[j].key, hi));
                if hi is Some {
                    lemma_key_lt_transitive(sep, v.cells[j].key, hi.unwrap());
                }
            }
        } else {
            let src = if i < j { i } else { i - 1 };
            assert(strictly_above(lo, v.cells[src].key));
        }
    }
}

/// The children of `v` other than child `j` are in `t` as they were in
/// `s`.
proof fn lemma_untouched_child(
    s: Store,
    t: Store,
    v: PageView,
    h: nat,
    lo: Bound,
    hi: Bound,
    j: int,
    i: int,
    fresh: Set<u32>,
)
    requires
        children_wf(s, v, h, lo, hi),
        0 <= j <= v.cells.len(),
        0 <= i <= v.cells.len(),
        i != j,
        forall|x: u32| #[trigger] in_children(s, v, h, x) ==> !fresh.contains(x),
        same_outside(s, t, child_of(v, j), (h - 1) as nat, fresh),
    ensures
        subtree_wf(t, child_of(v, i), (h - 1) as nat, child_lo(v, i, lo), child_hi(v, i, hi)),
        forall|x: u32|
            #![trigger in_subtree(t, child_of(v, i), (h - 1) as nat, x)]
            in_subtree(t, child_of(v, i), (h - 1) as nat, x) == in_subtree(
                s,
                child_of(v, i),
                (h - 1) as nat,
                x,
            ),
        forall|k: Seq<u8>|
            #![trigger subtree_get(t, child_of(v, i), (h - 1) as nat, k)]
            subtree_get(t, child_of(v, i), (h - 1) as nat, k) == subtree_get(
                s,
                child_of(v, i),
                (h - 1) as nat,
                k,
            ),
{
    let g = (h - 1) as nat;
    let d = child_of(v, i);
    assert(subtree_wf(s, d, g, child_lo(v, i, lo), child_hi(v, i, hi)));
    assert forall|x: u32| #[trigger] in_subtree(s, d, g, x) implies t.contains_key(x) && t[x]
        == s[x] by {
        assert(in_children(s, v, h, x));
        if i < j {
            assert(!(in_subtree(s, child_of(v, i), g, x) && in_subtree(s, child_of(v, j), g, x)));
        } else {
            assert(!(in_subtree(s, child_of(v, j), g, x) && in_subtree(s, child_of(v, i), g, x)));
        }
        lemma_in_subtree_has(s, d, g, child_lo(v, i, lo), child_hi(v, i, hi), x);
        assert(t.contains_key(x) == s.contains_key(x));
    }
    lemma_frame(s, t, d, g, child_lo(v, i, lo), child_hi(v, i, hi));
}

/// A page under a child of `v` other than child `j` is in `t` as it was
/// in `s`.
pub proof fn lemma_untouched_page(
    s: Store,
    t: Store,
    v: PageView,
    h: nat,
    lo: Bound,
    hi: Bound,
    j: int,
    i: int,
    fresh: Set<u32>,
    x: u32,
)
    requires
        children_wf(s, v, h, lo, hi),
        0 <= j <= v.cells.len(),
        0 <= i <= v.cells.len(),
        i != j,
        forall|x: u32| #[trigger] in_children(s, v, h, x) ==> !fresh.contains(x),
        same_outside(s, t, child_of(v, j), (h - 1) as nat, fresh),
        in_subtree(s, child_of(v, i), (h - 1) as nat, x),
    ensures
        t.contains_key(x),
        t[x] == s[x],
{
    let g = (h - 1) as nat;
    let d = child_of(v, i);
    assert(subtree_wf(s, d, g, child_lo(v, i, lo), child_hi(v, i, hi)));
    assert(in_children(s, v, h, x));
    if i < j {
        assert(!(in_subtree(s, child_of(v, i), g, x) && in_subtree(s, child_of(v, j), g, x)));
    } else {
        assert(!(in_subtree(s, child_of(v, j), g, x) && in_subtree(s, child_of(v, i), g, x)));
    }
    lemma_in_subtree_has(s, d, g, child_lo(v, i, lo), child_hi(v, i, hi), x);
    assert(t.contains_key(x) == s.contains_key(x));
}

/// Where the pages under child `i` of the page with the new separator
/// come from: those under the two halves from the child that was split
/// or from fresh pages, those under another child from that child.
proof fn lemma_with_separator_pages(
    s: Store,
    t: Store,
    v: PageView,
    h: nat,
    lo: Bound,
    hi: Bound,
    j: int,
    sep: Seq<u8>,
    new_id: u32,
    fresh: Set<u32>,
    i: int,
    x: u32,
)
    requires
        child_was_split(s, t, v, h, lo, hi, j, sep, new_id, fresh),
        0 <= i <= v.cells.len() + 1,
        in_subtree(t, child_of(with_separator(v, j, sep, new_id), i), (h - 1) as nat, x),
    ensures
        i == j || i == j + 1 ==> in_subtree(s, child_of(v, j), (h - 1) as nat, x)
            || fresh.contains(x),
        i != j && i != j + 1 ==> in_subtree(s, child_of(v, slot_before(j, i)), (h - 1) as nat, x),
        in_children(s, v, h, x) || fresh.contains(x),
{
    let g = (h - 1) as nat;
    lemma_with_separator_slots(v, lo, hi, j, sep, new_id);
    if i == j || i == j + 1 {
        if in_subtree(s, child_of(v, j), g, x) {
            assert(in_children(s, v, h, x));
        }
    } else {
        let src = slot_before(j, i);
        lemma_untouched_child(s, t, v, h, lo, hi, j, src, fresh);
        assert(in_subtree(s, child_of(v, src), g, x));
        assert(in_children(s, v, h, x));
    }
}

/// An interior page whose child `j` was split, with the separator and
/// the new child put in at slot `j`, has well-formed children, made of
/// the pages that were under the page or of fresh ones.
pub proof fn lemma_node_insert(
    s: Store,
    t: Store,
    v: PageView,
    h: nat,
    lo: Bound,
    hi: Bound,
    j: int,
    sep: Seq<u8>,
    new_id: u32,
    fresh: Set<u32>,
)
    requires
        child_was_split(s, t, v, h, lo, hi, j, sep, new_id, fresh),
    ensures
        keys_sorted(with_separator(v, j, sep, new_id).cells),
        children_wf(t, with_separator(v, j, sep, new_id), h, lo, hi),
        forall|x: u32| #[trigger]
            in_children(t, with_separator(v, j, sep, new_id), h, x) ==> in_children(s, v, h, x)
                || fresh.contains(x),
        forall|x: u32| #[trigger]
            in_children(t, with_separator(v, j, sep, new_id), h, x) ==> (in_children(s, v, h, x)
                && t.contains_key(x) && t[x] == s[x]) || in_subtree(
                t,
                child_of(v, j),
                (h - 1) as nat,
                x,
            ) || in_subtree(t, new_id, (h - 1) as nat, x),
{
    let g = (h - 1) as nat;
    let w = with_separator(v, j, sep, new_id);
    lemma_with_separator_slots(v, lo, hi, j, sep, new_id);
    lemma_with_separator_sorted(v, lo, hi, j, sep, new_id);
    assert forall|x: u32| #[trigger] in_children(t, w, h, x) implies (in_children(s, v, h, x)
        && t.contains_key(x) && t[x] == s[x]) || in_subtree(t, child_of(v, j), g, x)
        || in_subtree(t, new_id, g, x) by {
        let i = choose|i: int|
            0 <= i <= w.cells.len() && in_subtree(t, #[trigger] child_of(w, i), g, x);
        if i != j && i != j + 1 {
            lemma_with_separator_pages(s, t, v, h, lo, hi, j, sep, new_id, fresh, i, x);
            lemma_untouched_page(s, t, v, h, lo, hi, j, slot_before(j, i), fresh, x);
        }
    }
    assert forall|i: int| 0 <= i <= w.cells.len() implies subtree_wf(
        t,
        #[trigger] child_of(w, i),
        g,
        child_lo(w, i, lo),
        child_hi(w, i, hi),
    ) by {
        if i != j && i != j + 1 {
            lemma_untouched_child(s, t, v, h, lo, hi, j, slot_before(j, i), fresh);
        }
    }
    assert forall|x: u32| #[trigger] in_children(t, w, h, x) implies in_children(s, v, h, x)
        || fresh.contains(x) by {
        let i = choose|i: int|
            0 <= i <= w.cells.len() && in_subtree(t, #[trigger] child_of(w, i), g, x);
        lemma_with_separator_pages(s, t, v, h, lo, hi, j, sep, new_id, fresh, i, x);
    }
    assert forall|a: int, b: int, x: u32| 0 <= a < b <= w.cells.len() implies !(
    #[trigger] in_subtree(t, child_of(w, a), g, x) && #[trigger] in_subtree(
        t,
        child_of(w, b),
        g,
        x,
    )) by {
        if in_subtree(t, child_of(w, a), g, x) && in_subtree(t, child_of(w, b), g, x) {
            lemma_with_separator_pages(s, t, v, h, lo, hi, j, sep, new_id, fresh, a, x);
            lemma_with_separator_pages(s, t, v, h, lo, hi, j, sep, new_id, fresh, b, x);
            let a_new = a == j || a == j + 1;
            let b_new = b == j || b == j + 1;
            let sa = slot_before(j, a);
            let sb = slot_before(j, b);
            if a_new && b_new {
                assert(a == j && b == j + 1);
            } else if a_new {
                assert(in_children(s, v, h, x));
                assert(!(in_subtree(s, child_of(v, j), g, x)
                    && in_subtree(s, child_of(v, sb), g, x)));
            } else if b_new {
                assert(in_children(s, v, h, x));
                assert(!(in_subtree(s, child_of(v, sa), g, x)
                    && in_subtree(s, child_of(v, j), g, x)));
            } else {
                assert(!(in_subtree(s, child_of(v, sa), g, x)
                    && in_subtree(s, child_of(v, sb), g, x)));
            }
        }
    }
}

/// What the children of the page with the new separator hold: what the
/// two halves hold for the keys that the page sent to the child that was
/// split, and what the other children held for the rest.
pub proof fn lemma_node_insert_get(
    s: Store,
    t: Store,
    v: PageView,
    h: nat,
    lo: Bound,
    hi: Bound,
    j: int,
    sep: Seq<u8>,
    new_id: u32,
    fresh: Set<u32>,
    k: Seq<u8>,
)
    requires
        child_was_split(s, t, v, h, lo, hi, j, sep, new_id, fresh),
    ensures
        node_get(t, with_separator(v, j, sep, new_id), h, k) == (if child_slot(v.cells, k) == j {
            if key_lt(k, sep) {
                subtree_get(t, child_of(v, j), (h - 1) as nat, k)
            } else {
                subtree_get(t, new_id, (h - 1) as nat, k)
            }
        } else {
            node_get(s, v, h, k)
        }),
{
    let g = (h - 1) as nat;
    let w = with_separator(v, j, sep, new_id);
    let n = v.cells.len() as int;
    lemma_with_separator_slots(v, lo, hi, j, sep, new_id);
    lemma_with_separator_sorted(v, lo, hi, j, sep, new_id);
    lemma_child_slot(v.cells, k);
    let i = child_slot(v.cells, k) as int;
    lemma_key_trichotomy(k, sep);
    let target = if i < j {
        i
    } else if i == j {
        if key_lt(k, sep) {
            j
        } else {
            j + 1
        }
    } else {
        i + 1
    };
    assert(above(child_lo(w, target, None), k) && below(k, child_hi(w, target, None))) by {
        if i > 0 {
            assert(key_le(v.cells[i - 1].key, k));
        }
        if i < n {
            assert(key_lt(k, v.cells[i].key));
        }
    }
    lemma_route_is(w, k, target, None, None);
    assert(child_for(w, k).0 == child_of(w, target));
    assert(child_for(v, k).0 == child_of(v, i));
    if i != j {
        lemma_untouched_child(s, t, v, h, lo, hi, j, i, fresh);
    }
}

/// The interior page `w` is split at its separator `m`: `wl` keeps the
/// separators before it, `wr` takes those after it and, as the child of
/// its header, the child of separator `m`.
pub open spec fn is_split_of(w: PageView, m: int, wl: PageView, wr: PageView) -> bool {
    &&& 0 <= m < w.cells.len()
    &&& wl.page_type.spec_is_interior()
    &&& wr.page_type.spec_is_interior()
    &&& wl.right_child == w.right_child
    &&& wl.cells == w.cells.take(m)
    &&& wr.right_child == w.cells[m].left_child
    &&& wr.cells == w.cells.skip(m + 1)
}

/// The children of the halves of a split page are the children of the
/// page, within the same separators, with the separator that moves up as
/// the bound between the halves.
proof fn lemma_split_slots(w: PageView, m: int, wl: PageView, wr: PageView, lo: Bound, hi: Bound)
    requires
        is_split_of(w, m, wl, wr),
    ensures
        forall|i: int|
            0 <= i <= m ==> #[trigger] child_of(wl, i) == child_of(w, i) && child_lo(wl, i, lo)
                == child_lo(w, i, lo) && child_hi(wl, i, Some(w.cells[m].key)) == child_hi(
                w,
                i,
                hi,
            ),
        forall|i: int|
            0 <= i <= w.cells.len() - m - 1 ==> #[trigger] child_of(wr, i) == child_of(
                w,
                i + m + 1,
            ) && child_lo(wr, i, Some(w.cells[m].key)) == child_lo(w, i + m + 1, lo) && child_hi(
                wr,
                i,
                hi,
            ) == child_hi(w, i + m + 1, hi),
        forall|i: int| 0 <= i < m ==> (#[trigger] wl.cells[i]) == w.cells[i],
        forall|i: int|
            0 <= i < w.cells.len() - m - 1 ==> (#[trigger] wr.cells[i]) == w.cells[i + m + 1],
{
}

/// The halves of a split page have well-formed children, which are
/// children of the page; no page is under both halves; the separator
/// that moves up lies within the bounds of the page.
pub proof fn lemma_node_split(
    t: Store,
    w: PageView,
    m: int,
    wl: PageView,
    wr: PageView,
    h: nat,
    lo: Bound,
    hi: Bound,
)
    requires
        children_wf(t, w, h, lo, hi),
        is_split_of(w, m, wl, wr),
    ensures
        strictly_above(lo, w.cells[m].key),
        below(w.cells[m].key, hi),
        children_wf(t, wl, h, lo, Some(w.cells[m].key)),
        children_wf(t, wr, h, Some(w.cells[m].key), hi),
        forall|x: u32| #[trigger] in_children(t, wl, h, x) ==> in_children(t, w, h, x),
        forall|x: u32| #[trigger] in_children(t, wr, h, x) ==> in_children(t, w, h, x),
        forall|x: u32| !(#[trigger] in_children(t, wl, h, x) && in_children(t, wr, h, x)),
{
    let g = (h - 1) as nat;
    let p = w.cells[m].key;
    lemma_split_slots(w, m, wl, wr, lo, hi);
    assert(strictly_above(lo, w.cells[m].key));
    assert forall|a: int, b: int| 0 <= a < b < wl.cells.len() implies key_lt(
        #[trigger] wl.cells[a].key,
        #[trigger] wl.cells[b].key,
    ) by {
        assert(key_lt(w.cells[a].key, w.cells[b].key));
    }
    assert forall|a: int, b: int| 0 <= a < b < wr.cells.len() implies key_lt(
        #[trigger] wr.cells[a].key,
        #[trigger] wr.cells[b].key,
    ) by {
        assert(key_lt(w.cells[a + m + 1].key, w.cells[b + m + 1].key));
    }
    assert forall|i: int| 0 <= i < wl.cells.len() implies strictly_above(
        lo,
        (#[trigger] wl.cells[i]).key,
    ) && below(wl.cells[i].key, Some(p)) by {
        assert(strictly_above(lo, w.cells[i].key));
        assert(key_lt(w.cells[i].key, w.cells[m].key));
    }
    assert forall|i: int| 0 <= i < wr.cells.len() implies strictly_above(
        Some(p),
        (#[trigger] wr.cells[i]).key,
    ) && below(wr.cells[i].key, hi) by {
        assert(below(w.cells[i + m + 1].key, hi));
        assert(key_lt(w.cells[m].key, w.cells[i + m + 1].key));
    }
    assert forall|i: int| 0 <= i <= wl.cells.len() implies subtree_wf(
        t,
        #[trigger] child_of(wl, i),
        g,
        child_lo(wl, i, lo),
        child_hi(wl, i, Some(p)),
    ) by {
        assert(subtree_wf(t, child_of(w, i), g, child_lo(w, i, lo), child_hi(w, i, hi)));
    }
    assert forall|i: int| 0 <= i <= wr.cells.len() implies subtree_wf(
        t,
        #[trigger] child_of(wr, i),
        g,
        child_lo(wr, i, Some(p)),
        child_hi(wr, i, hi),
    ) by {
        assert(subtree_wf(
            t,
            child_of(w, i + m + 1),
            g,
            child_lo(w, i + m + 1, lo),
            child_hi(w, i + m + 1, hi),
        ));
    }
    assert forall|a: int, b: int, x: u32| 0 <= a < b <= wl.cells.len() implies !(
    #[trigger] in_subtree(t, child_of(wl, a), g, x) && #[trigger] in_subtree(
        t,
        child_of(wl, b),
        g,
        x,
    )) by {
        assert(!(in_subtree(t, child_of(w, a), g, x) && in_subtree(t, child_of(w, b), g, x)));
    }
    assert forall|a: int, b: int, x: u32| 0 <= a < b <= wr.cells.len() implies !(
    #[trigger] in_subtree(t, child_of(wr, a), g, x) && #[trigger] in_subtree(
        t,
        child_of(wr, b),
        g,
        x,
    )) by {
        assert(!(in_subtree(t, child_of(w, a + m + 1), g, x) && in_subtree(
            t,
            child_of(w, b + m + 1),
            g,
            x,
        )));
    }
    assert forall|x: u32| #[trigger] in_children(t, wl, h, x) implies in_children(t, w, h, x) by {
        let i = choose|i: int|
            0 <= i <= wl.cells.len() && in_subtree(t, #[trigger] child_of(wl, i), g, x);
        assert(in_subtree(t, child_of(w, i), g, x));
    }
    assert forall|x: u32| #[trigger] in_children(t, wr, h, x) implies in_children(t, w, h, x) by {
        let i = choose|i: int|
            0 <= i <= wr.cells.len() && in_subtree(t, #[trigger] child_of(wr, i), g, x);
        assert(in_subtree(t, child_of(w, i + m + 1), g, x));
    }
    assert forall|x: u32| !(#[trigger] in_children(t, wl, h, x) && in_children(t, wr, h, x)) by {
        if in_children(t, wl, h, x) && in_children(t, wr, h, x) {
            let a = choose|i: int|
                0 <= i <= wl.cells.len() && in_subtree(t, #[trigger] child_of(wl, i), g, x);
            let b = choose|i: int|
                0 <= i <= wr.cells.len() && in_subtree(t, #[trigger] child_of(wr, i), g, x);
            assert(!(in_subtree(t, child_of(w, a), g, x) && in_subtree(
                t,
                child_of(w, b + m + 1),
                g,
                x,
            )));
        }
    }
}

/// What the halves of a split page hold: the half that keeps the lower
/// separators what the page held for the keys below the separator that
/// moves up, the other half what it held for the rest.
pub proof fn lemma_node_split_get(
    t: Store,
    w: PageView,
    m: int,
    wl: PageView,
    wr: PageView,
    h: nat,
    k: Seq<u8>,
)
    requires
        keys_sorted(w.cells),
        is_split_of(w, m, wl, wr),
    ensures
        node_get(t, w, h, k) == (if key_lt(k, w.cells[m].key) {
            node_get(t, wl, h, k)
        } else {
            node_get(t, wr, h, k)
        }),
{
    let p = w.cells[m].key;
    lemma_split_slots(w, m, wl, wr, None, None);
    lemma_child_slot(w.cells, k);
    let i = child_slot(w.cells, k) as int;
    lemma_key_trichotomy(k, p);
    assert forall|a: int, b: int| 0 <= a < b < wl.cells.len() implies key_lt(
        #[trigger] wl.cells[a].key,
        #[trigger] wl.cells[b].key,
    ) by {
        assert(key_lt(w.cells[a].key, w.cells[b].key));
    }
    assert forall|a: int, b: int| 0 <= a < b < wr.cells.len() implies key_lt(
        #[trigger] wr.cells[a].key,
        #[trigger] wr.cells[b].key,
    ) by {
        assert(key_lt(w.cells[a + m + 1].key, w.cells[b + m + 1].key));
    }
    if key_lt(k, p) {
        // The key is sent to a child at or before slot `m`.
        if i > m {
            assert(key_le(w.cells[i - 1].key, k));
            if i - 1 > m {
                assert(key_lt(w.cells[m].key, w.cells[i - 1].key));
                lemma_key_lt_le(p, w.cells[i - 1].key, k);
            }
        }
        assert(i <= m);
        assert(above(child_lo(wl, i, None), k) && below(k, child_hi(wl, i, None))) by {
            if i > 0 {
                assert(key_le(w.cells[i - 1].key, k));
            }
            if i < m {
                assert(key_lt(k, w.cells[i].key));
            }
        }
        lemma_route_is(wl, k, i, None, None);
    } else {
        if i <= m {
            assert(key_lt(k, w.cells[i].key));
            if i < m {
                assert(key_lt(w.cells[i].key, w.cells[m].key));
                lemma_key_lt_transitive(k, w.cells[i].key, p);
            }
        }
        assert(i > m);
        let r = i - m - 1;
        assert(above(child_lo(wr, r, None), k) && below(k, child_hi(wr, r, None))) by {
            if r > 0 {
                assert(key_le(w.cells[i - 1].key, k));
            }
            if i < w.cells.len() {
                assert(key_lt(k, w.cells[i].key));
            }
        }
        lemma_route_is(wr, k, r, None, None);
    }
}

/// What the halves of a split leaf hold once a cell of a new key went
/// into the half on its side of the separator: the half that keeps the
/// lower keys holds keys below the separator, the other half keys from
/// the separator on, and together they hold what the leaf held, with the
/// new cell.
pub proof fn lemma_leaf_split(
    cells: Seq<CellView>,
    mid: int,
    c: CellView,
    left: Seq<CellView>,
    right: Seq<CellView>,
    pos: int,
)
    requires
        keys_sorted(cells),
        0 <= mid < cells.len(),
        forall|i: int| 0 <= i < cells.len() ==> (#[trigger] cells[i]).key != c.key,
        keys_sorted(left),
        keys_sorted(right),
        if key_lt(c.key, cells[mid].key) {
            0 <= pos <= mid && left == cells.take(mid).insert(pos, c) && right == cells.skip(mid)
        } else {
            0 <= pos <= cells.len() - mid && left == cells.take(mid) && right == cells.skip(
                mid,
            ).insert(pos, c)
        },
    ensures
        forall|i: int| 0 <= i < left.len() ==> key_lt((#[trigger] left[i]).key, cells[mid].key),
        forall|i: int| 0 <= i < right.len() ==> key_le(cells[mid].key, (#[trigger] right[i]).key),
        forall|i: int|
            0 <= i < left.len() ==> (#[trigger] left[i]) == c || exists|a: int|
                0 <= a < cells.len() && cells[a] == left[i],
        forall|i: int|
            0 <= i < right.len() ==> (#[trigger] right[i]) == c || exists|a: int|
                0 <= a < cells.len() && cells[a] == right[i],
        forall|k: Seq<u8>|
            #![trigger leaf_get(cells, k)]
            (if key_lt(k, cells[mid].key) {
                leaf_get(left, k)
            } else {
                leaf_get(right, k)
            }) == put_result(k, c.key, c.value, leaf_get(cells, k)),
{
    let sep = cells[mid].key;
    let l0 = cells.take(mid);
    let r0 = cells.skip(mid);
    lemma_key_trichotomy(c.key, sep);
    assert forall|i: int| 0 <= i < l0.len() implies key_lt((#[trigger] l0[i]).key, sep) by {
        assert(l0[i] == cells[i]);
        assert(key_lt(cells[i].key, cells[mid].key));
    }
    assert forall|i: int| 0 <= i < r0.len() implies key_le(sep, (#[trigger] r0[i]).key) by {
        assert(r0[i] == cells[i + mid]);
        if i > 0 {
            assert(key_lt(cells[mid].key, cells[i + mid].key));
        }
    }
    assert forall|i: int| 0 <= i < left.len() implies key_lt((#[trigger] left[i]).key, sep) && (
    left[i] == c || exists|a: int| 0 <= a < cells.len() && cells[a] == left[i]) by {
        if key_lt(c.key, sep) {
            if i != pos {
                let src = if i < pos { i } else { i - 1 };
                assert(left[i] == l0[src]);
                assert(cells[src] == left[i]);
            }
        } else {
            assert(left[i] == l0[i]);
            assert(cells[i] == left[i]);
        }
    }
    assert forall|i: int| 0 <= i < right.len() implies key_le(sep, (#[trigger] right[i]).key) && (
    right[i] == c || exists|a: int| 0 <= a < cells.len() && cells[a] == right[i]) by {
        if key_lt(c.key, sep) {
            assert(right[i] == r0[i]);
            assert(cells[i + mid] == right[i]);
        } else {
            if i != pos {
                let src = if i < pos { i } else { i - 1 };
                assert(right[i] == r0[src]);
                assert(cells[src + mid] == right[i]);
            }
        }
    }
    assert forall|k: Seq<u8>|
        #![trigger leaf_get(cells, k)]
        (if key_lt(k, sep) {
            leaf_get(left, k)
        } else {
            leaf_get(right, k)
        }) == put_result(k, c.key, c.value, leaf_get(cells, k)) by {
        lemma_key_trichotomy(k, sep);
        lemma_leaf_get_part(cells, mid, k);
        if key_lt(c.key, sep) {
            lemma_leaf_get_insert(l0, pos, c, k);
        } else {
            lemma_leaf_get_insert(r0, pos, c, k);
        }
    }
}

/// What a leaf holds under a key is what its cells before `mid` hold if
/// the key is below the key of cell `mid`, and what the cells from `mid`
/// on hold if not.
pub proof fn lemma_leaf_get_part(cells: Seq<CellView>, mid: int, k: Seq<u8>)
    requires
        keys_sorted(cells),
        0 <= mid < cells.len(),
    ensures
        leaf_get(cells, k) == (if key_lt(k, cells[mid].key) {
            leaf_get(cells.take(mid), k)
        } else {
            leaf_get(cells.skip(mid), k)
        }),
{
    let sep = cells[mid].key;
    let l0 = cells.take(mid);
    let r0 = cells.skip(mid);
    lemma_key_trichotomy(k, sep);
    lemma_sorted_part(cells, mid);
    if exists|i: int| 0 <= i < cells.len() && (#[trigger] cells[i]).key == k {
        let i = choose|i: int| 0 <= i < cells.len() && (#[trigger] cells[i]).key == k;
        lemma_leaf_get_at(cells, i);
        if i < mid {
            assert(key_lt(cells[i].key, cells[mid].key));
            assert(l0[i] == cells[i]);
            lemma_leaf_get_at(l0, i);
        } else {
            if i > mid {
                assert(key_lt(cells[mid].key, cells[i].key));
            }
            assert(r0[i - mid] == cells[i]);
            lemma_leaf_get_at(r0, i - mid);
        }
    } else {
        if exists|a: int| 0 <= a < l0.len() && (#[trigger] l0[a]).key == k {
            let a = choose|a: int| 0 <= a < l0.len() && (#[trigger] l0[a]).key == k;
            assert(cells[a] == l0[a]);
        }
        if exists|a: int| 0 <= a < r0.len() && (#[trigger] r0[a]).key == k {
            let a = choose|a: int| 0 <= a < r0.len() && (#[trigger] r0[a]).key == k;
            assert(cells[a + mid] == r0[a]);
        }
    }
}

/// The parts of sorted cells are sorted.
pub proof fn lemma_sorted_part(cells: Seq<CellView>, mid: int)
    requires
        keys_sorted(cells),
        0 <= mid <= cells.len(),
    ensures
        keys_sorted(cells.take(mid)),
        keys_sorted(cells.skip(mid)),
{
    let l0 = cells.take(mid);
    let r0 = cells.skip(mid);
    assert forall|a: int, b: int| 0 <= a < b < l0.len() implies key_lt(
        #[trigger] l0[a].key,
        #[trigger] l0[b].key,
    ) by {
        assert(key_lt(cells[a].key, cells[b].key));
    }
    assert forall|a: int, b: int| 0 <= a < b < r0.len() implies key_lt(
        #[trigger] r0[a].key,
        #[trigger] r0[b].key,
    ) by {
        assert(key_lt(cells[a + mid].key, cells[b + mid].key));
    }
}

/// A leaf that was split on the way of an insertion: the store holds the
/// two halves, and together they hold what the leaf is to hold.
pub proof fn lemma_leaf_split_commit(
    s: Store,
    t: Store,
    id: u32,
    new_id: u32,
    lo: Bound,
    hi: Bound,
    cells: Seq<CellView>,
    mid: int,
    c: CellView,
    pos: int,
    fresh: Set<u32>,
)
    requires
        subtree_wf(s, id, 1, lo, hi),
        keys_sorted(cells),
        0 <= mid < cells.len(),
        above(lo, c.key),
        below(c.key, hi),
        forall|i: int| 0 <= i < cells.len() ==> (#[trigger] cells[i]).key != c.key,
        forall|i: int|
            0 <= i < cells.len() ==> above(lo, (#[trigger] cells[i]).key)
                && below(cells[i].key, hi),
        forall|k: Seq<u8>|
            #![trigger leaf_get(cells, k)]
            put_result(k, c.key, c.value, leaf_get(cells, k)) == put_result(
                k,
                c.key,
                c.value,
                subtree_get(s, id, 1, k),
            ),
        new_id != 0,
        new_id != id,
        fresh.contains(new_id),
        !fresh.contains(id),
        t.contains_key(id),
        t.contains_key(new_id),
        image_wf(t[id]),
        image_wf(t[new_id]),
        page_at(t, id).page_type.spec_is_leaf(),
        page_at(t, new_id).page_type.spec_is_leaf(),
        page_at(t, id).cells.len() > 0,
        if key_lt(c.key, cells[mid].key) {
            0 <= pos <= mid && page_at(t, id).cells == cells.take(mid).insert(pos, c) && page_at(
                t,
                new_id,
            ).cells == cells.skip(mid)
        } else {
            0 <= pos <= cells.len() - mid && page_at(t, id).cells == cells.take(mid) && page_at(
                t,
                new_id,
            ).cells == cells.skip(mid).insert(pos, c)
        },
        forall|x: u32|
            x != id && x != new_id ==> (#[trigger] t.contains_key(x) == s.contains_key(x)) && (
            s.contains_key(x) ==> t[x] == s[x]),
    ensures
        inserted_split(s, t, id, 1, lo, hi, c.key, c.value, cells[mid].key, new_id, fresh),
{
    let sep = cells[mid].key;
    let left = page_at(t, id).cells;
    let right = page_at(t, new_id).cells;
    lemma_image_view_wf(t[id]);
    lemma_image_view_wf(t[new_id]);
    lemma_leaf_split(cells, mid, c, left, right, pos);
    assert forall|i: int| 0 <= i < left.len() implies above(lo, (#[trigger] left[i]).key) && below(
        left[i].key,
        Some(sep),
    ) by {
        if left[i] != c {
            let a = choose|a: int| 0 <= a < cells.len() && cells[a] == left[i];
            assert(above(lo, cells[a].key));
        }
    }
    assert forall|i: int| 0 <= i < right.len() implies above(Some(sep), (#[trigger] right[i]).key)
        && below(right[i].key, hi) by {
        if right[i] != c {
            let a = choose|a: int| 0 <= a < cells.len() && cells[a] == right[i];
            assert(below(cells[a].key, hi));
        }
    }
    assert(strictly_above(lo, sep)) by {
        assert(above(lo, left[0].key));
        assert(key_lt(left[0].key, sep));
        if lo is Some {
            lemma_key_le_lt(lo.unwrap(), left[0].key, sep);
        }
    }
    assert(below(sep, hi)) by {
        assert(below(cells[mid].key, hi));
    }
    assert(subtree_wf(t, id, 1, lo, Some(sep)));
    assert(subtree_wf(t, new_id, 1, Some(sep), hi));
    assert forall|k: Seq<u8>|
        #![trigger subtree_get(s, id, 1, k)]
        (if key_lt(k, sep) {
            subtree_get(t, id, 1, k)
        } else {
            subtree_get(t, new_id, 1, k)
        }) == put_result(k, c.key, c.value, subtree_get(s, id, 1, k)) by {
        assert(put_result(k, c.key, c.value, leaf_get(cells, k)) == put_result(
            k,
            c.key,
            c.value,
            subtree_get(s, id, 1, k),
        ));
    }
    assert(in_subtree(s, id, 1, id));
}

/// An interior page whose child under `key` took an insertion without
/// being split holds what it held, with `value` under `key`.
pub proof fn lemma_interior_plain(
    s: Store,
    t: Store,
    id: u32,
    h: nat,
    lo: Bound,
    hi: Bound,
    key: Seq<u8>,
    value: Seq<u8>,
    fresh: Set<u32>,
)
    requires
        h >= 2,
        subtree_wf(s, id, h, lo, hi),
        forall|x: u32| #[trigger] in_subtree(s, id, h, x) ==> !fresh.contains(x),
        inserted_plain(
            s,
            t,
            child_for(page_at(s, id), key).0,
            (h - 1) as nat,
            child_lo(page_at(s, id), child_slot(page_at(s, id).cells, key) as int, lo),
            child_hi(page_at(s, id), child_slot(page_at(s, id).cells, key) as int, hi),
            key,
            value,
            fresh,
        ),
    ensures
        inserted_plain(s, t, id, h, lo, hi, key, value, fresh),
        forall|x: u32| #[trigger]
            in_subtree(t, id, h, x) ==> (in_subtree(s, id, h, x) && t[x] == s[x]) || in_subtree(
                t,
                child_for(page_at(s, id), key).0,
                (h - 1) as nat,
                x,
            ),
{
    let v = page_at(s, id);
    let g = (h - 1) as nat;
    lemma_subtree_children(s, id, h, lo, hi);
    lemma_child_slot(v.cells, key);
    let j = child_slot(v.cells, key) as int;
    let c = child_of(v, j);
    lemma_child_updated(s, t, id, h, lo, hi, j, fresh);
    assert forall|x: u32| #[trigger] in_subtree(t, id, h, x) implies (in_subtree(s, id, h, x)
        && t[x] == s[x]) || in_subtree(t, c, g, x) by {
        lemma_child_updated_page(s, t, id, h, lo, hi, j, fresh, x);
    }
    assert forall|k: Seq<u8>|
        #![trigger subtree_get(t, id, h, k)]
        subtree_get(t, id, h, k) == put_result(k, key, value, subtree_get(s, id, h, k)) by {
        lemma_child_slot(v.cells, k);
        if child_slot(v.cells, k) == j {
            assert(subtree_get(s, id, h, k) == subtree_get(s, c, g, k));
            assert(subtree_get(t, c, g, k) == put_result(k, key, value, subtree_get(s, c, g, k)));
        }
    }
}

/// What `child_was_split` asks follows from a well-formed subtree whose
/// child under `key` was split by an insertion.
pub proof fn lemma_child_was_split(
    s: Store,
    t: Store,
    id: u32,
    h: nat,
    lo: Bound,
    hi: Bound,
    key: Seq<u8>,
    value: Seq<u8>,
    sep: Seq<u8>,
    new_id: u32,
    fresh: Set<u32>,
)
    requires
        h >= 2,
        subtree_wf(s, id, h, lo, hi),
        forall|x: u32| #[trigger] in_subtree(s, id, h, x) ==> !fresh.contains(x),
        inserted_split(
            s,
            t,
            child_for(page_at(s, id), key).0,
            (h - 1) as nat,
            child_lo(page_at(s, id), child_slot(page_at(s, id).cells, key) as int, lo),
            child_hi(page_at(s, id), child_slot(page_at(s, id).cells, key) as int, hi),
            key,
            value,
            sep,
            new_id,
            fresh,
        ),
    ensures
        child_was_split(
            s,
            t,
            page_at(s, id),
            h,
            lo,
            hi,
            child_slot(page_at(s, id).cells, key) as int,
            sep,
            new_id,
            fresh,
        ),
        child_for(page_at(s, id), key).0 == child_of(
            page_at(s, id),
            child_slot(page_at(s, id).cells, key) as int,
        ),
        !in_children(s, page_at(s, id), h, id),
        !fresh.contains(id),
        id != 0,
        t.contains_key(id),
        t[id] == s[id],
{
    let v = page_at(s, id);
    lemma_subtree_children(s, id, h, lo, hi);
    lemma_child_slot(v.cells, key);
    let j = child_slot(v.cells, key) as int;
    let c = child_of(v, j);
    assert forall|x: u32| #[trigger] in_children(s, v, h, x) implies !fresh.contains(x) by {
        assert(in_subtree(s, id, h, x));
    }
    assert(in_subtree(s, id, h, id));
    assert(!in_subtree(s, c, (h - 1) as nat, id));
    assert(t.contains_key(id) == s.contains_key(id));
}

/// An interior page whose child under `key` was split, and which took
/// the separator and the new child where they belong, holds what it
/// held, with `value` under `key`.
pub proof fn lemma_interior_fits(
    s: Store,
    t: Store,
    u: Store,
    id: u32,
    h: nat,
    lo: Bound,
    hi: Bound,
    key: Seq<u8>,
    value: Seq<u8>,
    sep: Seq<u8>,
    new_id: u32,
    fresh: Set<u32>,
)
    requires
        h >= 2,
        subtree_wf(s, id, h, lo, hi),
        forall|x: u32| #[trigger] in_subtree(s, id, h, x) ==> !fresh.contains(x),
        inserted_split(
            s,
            t,
            child_for(page_at(s, id), key).0,
            (h - 1) as nat,
            child_lo(page_at(s, id), child_slot(page_at(s, id).cells, key) as int, lo),
            child_hi(page_at(s, id), child_slot(page_at(s, id).cells, key) as int, hi),
            key,
            value,
            sep,
            new_id,
            fresh,
        ),
        u.contains_key(id),
        image_wf(u[id]),
        page_at(u, id) == with_separator(
            page_at(s, id),
            child_slot(page_at(s, id).cells, key) as int,
            sep,
            new_id,
        ),
        forall|x: u32|
            x != id ==> (#[trigger] u.contains_key(x) == t.contains_key(x)) && (t.contains_key(x)
                ==> u[x] == t[x]),
    ensures
        inserted_plain(s, u, id, h, lo, hi, key, value, fresh),
        forall|x: u32| #[trigger]
            in_subtree(u, id, h, x) ==> x == id || (in_subtree(s, id, h, x) && u[x] == s[x]) || ((
            in_subtree(t, child_for(page_at(s, id), key).0, (h - 1) as nat, x) || in_subtree(
                t,
                new_id,
                (h - 1) as nat,
                x,
            )) && u[x] == t[x]),
{
    let v = page_at(s, id);
    let g = (h - 1) as nat;
    let j = child_slot(v.cells, key) as int;
    let c = child_of(v, j);
    let w = with_separator(v, j, sep, new_id);
    lemma_child_was_split(s, t, id, h, lo, hi, key, value, sep, new_id, fresh);
    lemma_subtree_children(s, id, h, lo, hi);
    lemma_node_insert(s, t, v, h, lo, hi, j, sep, new_id, fresh);
    assert(!in_children(t, w, h, id));
    assert forall|x: u32| #[trigger] in_children(t, w, h, x) implies u.contains_key(x) && u[x]
        == t[x] by {
        lemma_in_children_has(t, w, h, lo, hi, x);
    }
    lemma_node_commit(t, u, id, w, h, lo, hi);
    assert forall|x: u32| #[trigger] in_subtree(u, id, h, x) implies x == id || (in_subtree(
        s,
        id,
        h,
        x,
    ) && u[x] == s[x]) || ((in_subtree(t, c, g, x) || in_subtree(t, new_id, g, x)) && u[x]
        == t[x]) by {
        if x != id {
            assert(in_children(t, w, h, x));
            lemma_in_children_has(t, w, h, lo, hi, x);
            if in_children(s, v, h, x) {
                assert(in_subtree(s, id, h, x));
            }
        }
    }
    assert forall|k: Seq<u8>|
        #![trigger subtree_get(u, id, h, k)]
        subtree_get(u, id, h, k) == put_result(k, key, value, subtree_get(s, id, h, k)) by {
        lemma_node_insert_get(s, t, v, h, lo, hi, j, sep, new_id, fresh, k);
        lemma_child_slot(v.cells, k);
        if child_slot(v.cells, k) == j {
            assert(subtree_get(s, id, h, k) == subtree_get(s, c, g, k));
        } else {
            assert(k != key);
        }
    }
    assert forall|x: u32| !in_subtree(s, id, h, x) && !fresh.contains(x) implies (
    #[trigger] u.contains_key(x) == s.contains_key(x)) && (s.contains_key(x) ==> u[x] == s[x]) by {
        if in_subtree(s, c, g, x) {
            assert(in_children(s, v, h, x));
        }
        assert(t.contains_key(x) == s.contains_key(x));
    }
}

/// A page under a child of a page with well-formed children is in the
/// store.
pub proof fn lemma_in_children_has(s: Store, v: PageView, h: nat, lo: Bound, hi: Bound, x: u32)
    requires
        children_wf(s, v, h, lo, hi),
        in_children(s, v, h, x),
    ensures
        s.contains_key(x),
        x != 0,
{
    let j = choose|j: int|
        0 <= j <= v.cells.len() && in_subtree(s, #[trigger] child_of(v, j), (h - 1) as nat, x);
    lemma_in_subtree_has(
        s,
        child_of(v, j),
        (h - 1) as nat,
        child_lo(v, j, lo),
        child_hi(v, j, hi),
        x,
    );
}

/// Where the separator `sc` goes between the separators around slot `j`
/// of `cells`, the halves of `cells` split at `mid`, one of them with
/// `sc` put in at its place `pos`, are the halves of `cells` with `sc`,
/// split one slot later if `sc` went below the middle.
pub proof fn lemma_split_after_insert(
    cells: Seq<CellView>,
    j: int,
    sc: CellView,
    mid: int,
    pos: int,
    left: Seq<CellView>,
    right: Seq<CellView>,
)
    requires
        keys_sorted(cells),
        0 <= j <= cells.len(),
        0 <= mid < cells.len(),
        j > 0 ==> key_lt(cells[j - 1].key, sc.key),
        j < cells.len() ==> key_lt(sc.key, cells[j].key),
        if key_lt(sc.key, cells[mid].key) {
            &&& 0 <= pos <= mid
            &&& left == cells.take(mid).insert(pos, sc)
            &&& right == cells.skip(mid + 1)
            &&& forall|i: int| 0 <= i < pos ==> key_lt(#[trigger] cells.take(mid)[i].key, sc.key)
            &&& pos < mid ==> key_lt(sc.key, cells.take(mid)[pos].key)
        } else {
            &&& 0 <= pos <= cells.len() - mid - 1
            &&& left == cells.take(mid)
            &&& right == cells.skip(mid + 1).insert(pos, sc)
            &&& forall|i: int|
                0 <= i < pos ==> key_lt(#[trigger] cells.skip(mid + 1)[i].key, sc.key)
            &&& pos < cells.len() - mid - 1 ==> key_lt(sc.key, cells.skip(mid + 1)[pos].key)
        },
    ensures
        ({
            let m = if key_lt(sc.key, cells[mid].key) {
                mid + 1
            } else {
                mid
            };
            &&& 0 <= m < cells.len() + 1
            &&& cells.insert(j, sc)[m] == cells[mid]
            &&& left == cells.insert(j, sc).take(m)
            &&& right == cells.insert(j, sc).skip(m + 1)
        }),
{
    let w = cells.insert(j, sc);
    lemma_key_trichotomy(sc.key, cells[mid].key);
    if key_lt(sc.key, cells[mid].key) {
        // `sc` lies below the middle: slot `j` is at most `mid`.
        if j > mid {
            assert(key_lt(cells[j - 1].key, sc.key));
            if j - 1 > mid {
                assert(key_lt(cells[mid].key, cells[j - 1].key));
                lemma_key_lt_transitive(cells[mid].key, cells[j - 1].key, sc.key);
            }
            lemma_key_trichotomy(sc.key, cells[mid].key);
        }
        assert(j <= mid);
        assert(pos == j) by {
            if pos < j {
                assert(cells.take(mid)[pos] == cells[pos]);
                assert(key_lt(sc.key, cells[pos].key));
                if pos < j - 1 {
                    assert(key_lt(cells[pos].key, cells[j - 1].key));
                    lemma_key_lt_transitive(sc.key, cells[pos].key, cells[j - 1].key);
                }
                lemma_key_trichotomy(sc.key, cells[j - 1].key);
            } else if pos > j {
                assert(cells.take(mid)[j] == cells[j]);
                assert(key_lt(cells[j].key, sc.key));
                lemma_key_trichotomy(sc.key, cells[j].key);
            }
        }
        assert(left =~= w.take(mid + 1));
        assert(right =~= w.skip(mid + 2));
        assert(w[mid + 1] == cells[mid]);
    } else {
        if j <= mid {
            assert(key_lt(sc.key, cells[j].key));
            if j < mid {
                assert(key_lt(cells[j].key, cells[mid].key));
                lemma_key_lt_transitive(sc.key, cells[j].key, cells[mid].key);
            }
        }
        assert(j > mid);
        let r0 = cells.skip(mid + 1);
        assert(pos == j - mid - 1) by {
            let q = j - mid - 1;
            if pos < q {
                assert(r0[pos] == cells[pos + mid + 1]);
                assert(key_lt(sc.key, cells[pos + mid + 1].key));
                if pos + mid + 1 < j - 1 {
                    assert(key_lt(cells[pos + mid + 1].key, cells[j - 1].key));
                    lemma_key_lt_transitive(sc.key, cells[pos + mid + 1].key, cells[j - 1].key);
                }
                lemma_key_trichotomy(sc.key, cells[j - 1].key);
            } else if pos > q {
                assert(r0[q] == cells[j]);
                assert(key_lt(cells[j].key, sc.key));
                lemma_key_trichotomy(sc.key, cells[j].key);
            }
        }
        assert(left =~= w.take(mid));
        assert(right =~= w.skip(mid + 1));
        assert(w[mid] == cells[mid]);
    }
}

/// An interior page whose child under `key` was split, and which was
/// split itself at its separator `m` once the new separator was in,
/// holds with its new neighbour `other` what it held, with `value` under
/// `key`.
pub proof fn lemma_interior_split(
    s: Store,
    t: Store,
    u: Store,
    id: u32,
    other: u32,
    h: nat,
    lo: Bound,
    hi: Bound,
    key: Seq<u8>,
    value: Seq<u8>,
    sep: Seq<u8>,
    new_id: u32,
    m: int,
    fresh: Set<u32>,
)
    requires
        h >= 2,
        subtree_wf(s, id, h, lo, hi),
        forall|x: u32| #[trigger] in_subtree(s, id, h, x) ==> !fresh.contains(x),
        inserted_split(
            s,
            t,
            child_for(page_at(s, id), key).0,
            (h - 1) as nat,
            child_lo(page_at(s, id), child_slot(page_at(s, id).cells, key) as int, lo),
            child_hi(page_at(s, id), child_slot(page_at(s, id).cells, key) as int, hi),
            key,
            value,
            sep,
            new_id,
            fresh,
        ),
        other != 0,
        other != id,
        fresh.contains(other),
        !in_subtree(t, child_for(page_at(s, id), key).0, (h - 1) as nat, other),
        !in_subtree(t, new_id, (h - 1) as nat, other),
        u.contains_key(id),
        u.contains_key(other),
        image_wf(u[id]),
        image_wf(u[other]),
        is_split_of(
            with_separator(
                page_at(s, id),
                child_slot(page_at(s, id).cells, key) as int,
                sep,
                new_id,
            ),
            m,
            page_at(u, id),
            page_at(u, other),
        ),
        forall|x: u32|
            x != id && x != other ==> (#[trigger] u.contains_key(x) == t.contains_key(x)) && (
            t.contains_key(x) ==> u[x] == t[x]),
    ensures
        inserted_split(
            s,
            u,
            id,
            h,
            lo,
            hi,
            key,
            value,
            with_separator(
                page_at(s, id),
                child_slot(page_at(s, id).cells, key) as int,
                sep,
                new_id,
            ).cells[m].key,
            other,
            fresh,
        ),
        forall|x: u32| #[trigger]
            in_subtree(u, id, h, x) ==> x == id || (in_subtree(s, id, h, x) && u[x] == s[x]) || ((
            in_subtree(t, child_for(page_at(s, id), key).0, (h - 1) as nat, x) || in_subtree(
                t,
                new_id,
                (h - 1) as nat,
                x,
            )) && u[x] == t[x]),
        forall|x: u32| #[trigger]
            in_subtree(u, other, h, x) ==> x == other || (in_subtree(s, id, h, x) && u[x]
                == s[x]) || ((in_subtree(t, child_for(page_at(s, id), key).0, (h - 1) as nat, x)
                || in_subtree(t, new_id, (h - 1) as nat, x)) && u[x] == t[x]),
{
    let v = page_at(s, id);
    let g = (h - 1) as nat;
    let j = child_slot(v.cells, key) as int;
    let c = child_of(v, j);
    let w = with_separator(v, j, sep, new_id);
    let wl = page_at(u, id);
    let wr = page_at(u, other);
    let p = w.cells[m].key;
    lemma_child_was_split(s, t, id, h, lo, hi, key, value, sep, new_id, fresh);
    lemma_subtree_children(s, id, h, lo, hi);
    lemma_node_insert(s, t, v, h, lo, hi, j, sep, new_id, fresh);
    lemma_node_split(t, w, m, wl, wr, h, lo, hi);
    assert(!in_children(t, w, h, id));
    assert(!in_children(t, w, h, other)) by {
        if in_children(t, w, h, other) {
            assert(in_children(s, v, h, other) || in_subtree(t, c, g, other) || in_subtree(
                t,
                new_id,
                g,
                other,
            ));
            assert(in_subtree(s, id, h, other));
        }
    }
    assert forall|x: u32| #[trigger] in_children(t, wl, h, x) implies u.contains_key(x) && u[x]
        == t[x] by {
        assert(in_children(t, w, h, x));
        lemma_in_children_has(t, w, h, lo, hi, x);
    }
    assert forall|x: u32| #[trigger] in_children(t, wr, h, x) implies u.contains_key(x) && u[x]
        == t[x] by {
        assert(in_children(t, w, h, x));
        lemma_in_children_has(t, w, h, lo, hi, x);
    }
    lemma_node_commit(t, u, id, wl, h, lo, Some(p));
    lemma_node_commit(t, u, other, wr, h, Some(p), hi);
    assert forall|k: Seq<u8>|
        #![trigger subtree_get(s, id, h, k)]
        (if key_lt(k, p) {
            subtree_get(u, id, h, k)
        } else {
            subtree_get(u, other, h, k)
        }) == put_result(k, key, value, subtree_get(s, id, h, k)) by {
        lemma_node_split_get(t, w, m, wl, wr, h, k);
        lemma_node_insert_get(s, t, v, h, lo, hi, j, sep, new_id, fresh, k);
        lemma_child_slot(v.cells, k);
        if child_slot(v.cells, k) == j {
            assert(subtree_get(s, id, h, k) == subtree_get(s, c, g, k));
        } else {
            assert(k != key);
        }
    }
    assert forall|x: u32| !in_subtree(s, id, h, x) && !fresh.contains(x) implies (
    #[trigger] u.contains_key(x) == s.contains_key(x)) && (s.contains_key(x) ==> u[x] == s[x]) by {
        if in_subtree(s, c, g, x) {
            assert(in_children(s, v, h, x));
        }
        assert(t.contains_key(x) == s.contains_key(x));
    }
    assert forall|x: u32| #[trigger] in_subtree(u, id, h, x) implies x == id || (in_subtree(
        s,
        id,
        h,
        x,
    ) && u[x] == s[x]) || ((in_subtree(t, c, g, x) || in_subtree(t, new_id, g, x)) && u[x]
        == t[x]) by {
        if x != id {
            assert(in_children(t, wl, h, x));
            assert(in_children(t, w, h, x));
            lemma_in_children_has(t, w, h, lo, hi, x);
            if in_children(s, v, h, x) {
                assert(in_subtree(s, id, h, x));
            }
        }
    }
    assert forall|x: u32| #[trigger] in_subtree(u, other, h, x) implies x == other || (
    in_subtree(s, id, h, x) && u[x] == s[x]) || ((in_subtree(t, c, g, x) || in_subtree(
        t,
        new_id,
        g,
        x,
    )) && u[x] == t[x]) by {
        if x != other {
            assert(in_children(t, wr, h, x));
            assert(in_children(t, w, h, x));
            lemma_in_children_has(t, w, h, lo, hi, x);
            if in_children(s, v, h, x) {
                assert(in_subtree(s, id, h, x));
            }
        }
    }
}

/// A new root over a root that was split holds what the tree held, with
/// `value` under `key`: the old root as the child of its header, the new
/// page as the child of the separator.
pub proof fn lemma_root_split(
    s: Store,
    t: Store,
    u: Store,
    root: u32,
    new_root: u32,
    h: nat,
    key: Seq<u8>,
    value: Seq<u8>,
    sep: Seq<u8>,
    new_id: u32,
    fresh: Set<u32>,
)
    requires
        h >= 1,
        inserted_split(s, t, root, h, None, None, key, value, sep, new_id, fresh),
        new_root != 0,
        !in_subtree(t, root, h, new_root),
        !in_subtree(t, new_id, h, new_root),
        u.contains_key(new_root),
        image_wf(u[new_root]),
        page_at(u, new_root).page_type.spec_is_interior(),
        page_at(u, new_root).right_child.0 == root,
        page_at(u, new_root).cells == seq![
            crate::page::cell::interior_view(sep, crate::types::page_id::PageId(new_id)),
        ],
        forall|x: u32|
            x != new_root ==> (#[trigger] u.contains_key(x) == t.contains_key(x)) && (
            t.contains_key(x) ==> u[x] == t[x]),
    ensures
        subtree_wf(u, new_root, h + 1, None, None),
        forall|k: Seq<u8>|
            #![trigger subtree_get(u, new_root, h + 1, k)]
            subtree_get(u, new_root, h + 1, k) == put_result(
                k,
                key,
                value,
                subtree_get(s, root, h, k),
            ),
        forall|x: u32| #[trigger]
            in_subtree(u, new_root, h + 1, x) ==> x == new_root || ((in_subtree(t, root, h, x)
                || in_subtree(t, new_id, h, x)) && u[x] == t[x]),
{
    let w = page_at(u, new_root);
    let g = (h + 1) as nat;
    assert(w.cells.len() == 1);
    assert(child_of(w, 0) == root && child_of(w, 1) == new_id);
    assert(child_lo(w, 0, None) == None::<Seq<u8>> && child_hi(w, 0, None) == Some(sep));
    assert(child_lo(w, 1, None) == Some(sep) && child_hi(w, 1, None) == None::<Seq<u8>>);
    assert forall|j: int| 0 <= j <= w.cells.len() implies subtree_wf(
        t,
        #[trigger] child_of(w, j),
        (g - 1) as nat,
        child_lo(w, j, None),
        child_hi(w, j, None),
    ) by {
        assert(j == 0 || j == 1);
    }
    assert forall|a: int, b: int, x: u32| 0 <= a < b <= w.cells.len() implies !(
    #[trigger] in_subtree(t, child_of(w, a), (g - 1) as nat, x) && #[trigger] in_subtree(
        t,
        child_of(w, b),
        (g - 1) as nat,
        x,
    )) by {
        assert(a == 0 && b == 1);
    }
    assert(children_wf(t, w, g, None, None));
    assert(!in_children(t, w, g, new_root)) by {
        if in_children(t, w, g, new_root) {
            let j = choose|j: int|
                0 <= j <= w.cells.len() && in_subtree(
                    t,
                    #[trigger] child_of(w, j),
                    (g - 1) as nat,
                    new_root,
                );
            assert(j == 0 || j == 1);
        }
    }
    assert forall|x: u32| #[trigger] in_children(t, w, g, x) implies u.contains_key(x) && u[x]
        == t[x] by {
        lemma_in_children_has(t, w, g, None, None, x);
    }
    lemma_node_commit(t, u, new_root, w, g, None, None);
    assert forall|k: Seq<u8>|
        #![trigger subtree_get(u, new_root, h + 1, k)]
        subtree_get(u, new_root, h + 1, k) == put_result(k, key, value, subtree_get(s, root, h, k)) by {
        lemma_key_trichotomy(k, sep);
        let target: int = if key_lt(k, sep) { 0 } else { 1 };
        lemma_route_is(w, k, target, None, None);
        assert(node_get(t, w, g, k) == subtree_get(t, child_of(w, target), h, k));
    }
    assert forall|x: u32| #[trigger] in_subtree(u, new_root, h + 1, x) implies x == new_root || ((
    in_subtree(t, root, h, x) || in_subtree(t, new_id, h, x)) && u[x] == t[x]) by {
        if x != new_root {
            assert(in_children(t, w, g, x));
            lemma_in_children_has(t, w, g, None, None, x);
            let j = choose|j: int|
                0 <= j <= w.cells.len()
                    && in_subtree(t, #[trigger] child_of(w, j), (g - 1) as nat, x);
            assert(j == 0 || j == 1);
        }
    }
}

/// A separator that lies between the separators around slot `j` is
/// above the separators before the slot, below those from the slot on,
/// and none of them.
pub proof fn lemma_between_separators(cells: Seq<CellView>, j: int, sep: Seq<u8>)
    requires
        keys_sorted(cells),
        0 <= j <= cells.len(),
        j > 0 ==> key_lt(cells[j - 1].key, sep),
        j < cells.len() ==> key_lt(sep, cells[j].key),
    ensures
        forall|i: int| 0 <= i < j ==> key_lt(#[trigger] cells[i].key, sep),
        forall|i: int| j <= i < cells.len() ==> key_lt(sep, #[trigger] cells[i].key),
        forall|i: int| 0 <= i < cells.len() ==> (#[trigger] cells[i]).key != sep,
{
    lemma_key_lt_irreflexive(sep);
    assert forall|i: int| 0 <= i < j implies key_lt(#[trigger] cells[i].key, sep) by {
        if i < j - 1 {
            assert(key_lt(cells[i].key, cells[j - 1].key));
            lemma_key_lt_transitive(cells[i].key, cells[j - 1].key, sep);
        }
    }
    assert forall|i: int| j <= i < cells.len() implies key_lt(sep, #[trigger] cells[i].key) by {
        if i > j {
            assert(key_lt(cells[j].key, cells[i].key));
            lemma_key_lt_transitive(sep, cells[j].key, cells[i].key);
        }
    }
}

/// A separator that lies between the separators around slot `j` is none
/// of the separators, and the place where it keeps them sorted is slot
/// `j`.
pub proof fn lemma_separator_position(cells: Seq<CellView>, j: int, pos: int, sep: Seq<u8>)
    requires
        keys_sorted(cells),
        0 <= j <= cells.len(),
        0 <= pos <= cells.len(),
        j > 0 ==> key_lt(cells[j - 1].key, sep),
        j < cells.len() ==> key_lt(sep, cells[j].key),
        forall|i: int| 0 <= i < pos ==> key_lt(#[trigger] cells[i].key, sep),
        forall|i: int| pos < i < cells.len() ==> key_lt(sep, #[trigger] cells[i].key),
    ensures
        forall|i: int| 0 <= i < cells.len() ==> (#[trigger] cells[i]).key != sep,
        pos < cells.len() && !key_lt(cells[pos].key, sep) ==> pos == j,
        pos == cells.len() ==> pos == j,
{
    lemma_key_lt_irreflexive(sep);
    assert forall|i: int| 0 <= i < cells.len() implies (#[trigger] cells[i]).key != sep by {
        if i < j {
            if i < j - 1 {
                assert(key_lt(cells[i].key, cells[j - 1].key));
                lemma_key_lt_transitive(cells[i].key, cells[j - 1].key, sep);
            }
        } else {
            if i > j {
                assert(key_lt(cells[j].key, cells[i].key));
                lemma_key_lt_transitive(sep, cells[j].key, cells[i].key);
            }
        }
    }
    if pos < cells.len() && !key_lt(cells[pos].key, sep) {
        lemma_key_trichotomy(cells[pos].key, sep);
        if pos < j {
            if pos < j - 1 {
                assert(key_lt(cells[pos].key, cells[j - 1].key));
                lemma_key_lt_transitive(sep, cells[pos].key, cells[j - 1].key);
            }
            lemma_key_trichotomy(sep, cells[j - 1].key);
        } else if pos > j {
            assert(key_lt(cells[j].key, sep));
            lemma_key_trichotomy(sep, cells[j].key);
        }
    }
    if pos == cells.len() && j < pos {
        assert(key_lt(cells[j].key, sep));
        lemma_key_trichotomy(sep, cells[j].key);
    }
}

/// The views of the halves of an interior page that was split in the
/// middle, one of which then took the separator `sep` with the child
/// `new_id` at its place `pos`, are the halves of the page with that
/// separator, split at the slot that this lemma returns.
pub proof fn lemma_halves(
    v: PageView,
    j: int,
    sep: Seq<u8>,
    new_id: u32,
    pos: int,
    half_left: PageView,
    half_right: PageView,
    left: PageView,
    right: PageView,
) -> (m: int)
    requires
        keys_sorted(v.cells),
        v.cells.len() > 0,
        0 <= j <= v.cells.len(),
        j > 0 ==> key_lt(v.cells[j - 1].key, sep),
        j < v.cells.len() ==> key_lt(sep, v.cells[j].key),
        half_left.page_type.spec_is_interior(),
        half_right.page_type.spec_is_interior(),
        half_left.right_child == v.right_child,
        half_left.cells == v.cells.take((v.cells.len() / 2) as int),
        half_right.right_child == v.cells[(v.cells.len() / 2) as int].left_child,
        half_right.cells == v.cells.skip((v.cells.len() / 2) as int + 1),
        keys_sorted(left.cells),
        keys_sorted(right.cells),
        0 <= pos,
        if key_lt(sep, v.cells[(v.cells.len() / 2) as int].key) {
            &&& right == half_right
            &&& pos <= half_left.cells.len()
            &&& left == (PageView {
                cells: half_left.cells.insert(
                    pos,
                    crate::page::cell::interior_view(sep, crate::types::page_id::PageId(new_id)),
                ),
                ..half_left
            })
            &&& forall|i: int| 0 <= i < pos ==> key_lt(#[trigger] half_left.cells[i].key, sep)
            &&& forall|i: int|
                pos < i < half_left.cells.len() ==> key_lt(sep, #[trigger] half_left.cells[i].key)
        } else {
            &&& left == half_left
            &&& pos <= half_right.cells.len()
            &&& right == (PageView {
                cells: half_right.cells.insert(
                    pos,
                    crate::page::cell::interior_view(sep, crate::types::page_id::PageId(new_id)),
                ),
                ..half_right
            })
            &&& forall|i: int| 0 <= i < pos ==> key_lt(#[trigger] half_right.cells[i].key, sep)
            &&& forall|i: int|
                pos < i < half_right.cells.len() ==> key_lt(
                    sep,
                    #[trigger] half_right.cells[i].key,
                )
        },
    ensures
        is_split_of(with_separator(v, j, sep, new_id), m, left, right),
        with_separator(v, j, sep, new_id).cells[m].key == v.cells[(v.cells.len() / 2) as int].key,
{
    let mid = (v.cells.len() / 2) as int;
    let sc = crate::page::cell::interior_view(sep, crate::types::page_id::PageId(new_id));
    let to_left = key_lt(sep, v.cells[mid].key);
    let half = if to_left { half_left.cells } else { half_right.cells };
    lemma_sorted_part(v.cells, mid);
    lemma_sorted_part(v.cells, mid + 1);
    lemma_between_separators(v.cells, j, sep);
    assert forall|i: int| 0 <= i < half.len() implies (#[trigger] half[i]).key != sep by {
        if to_left {
            assert(half[i] == v.cells[i]);
        } else {
            assert(half[i] == v.cells[i + mid + 1]);
        }
    }
    if pos < half.len() {
        // The key at the place of the separator is above it: the cells
        // with the separator are sorted, and the key comes right after.
        let with = half.insert(pos, sc);
        assert(with[pos] == sc && with[pos + 1] == half[pos]);
        if to_left {
            assert(key_lt(left.cells[pos].key, left.cells[pos + 1].key));
        } else {
            assert(key_lt(right.cells[pos].key, right.cells[pos + 1].key));
        }
    }
    lemma_split_after_insert(v.cells, j, sc, mid, pos, left.cells, right.cells);
    let m = if to_left { mid + 1 } else { mid };
    m
}

/// Key-value pairs, as a scan returns them.
pub type Pairs = Seq<(Seq<u8>, Seq<u8>)>;

/// The pairs of byte strings that pairs of vectors stand for.
pub open spec fn pairs_view(v: Seq<(Vec<u8>, Vec<u8>)>) -> Pairs {
    Seq::new(v.len(), |i: int| (v[i].0@, v[i].1@))
}

/// The bytes of a bound, if there is one.
pub open spec fn bound_view(b: Option<&[u8]>) -> Bound {
    match b {
        Some(bytes) => Some(bytes@),
        None => None,
    }
}

/// `k` lies in the range from `start` on and below `end`.
pub open spec fn in_range(k: Seq<u8>, start: Bound, end: Bound) -> bool {
    above(start, k) && below(k, end)
}

/// The keys of the pairs ascend strictly.
pub open spec fn pairs_sorted(p: Pairs) -> bool {
    forall|i: int, j: int| 0 <= i < j < p.len() ==> key_lt(#[trigger] p[i].0, #[trigger] p[j].0)
}

/// The pairs list the keys in `keys` with what the map holds under them:
/// each of these keys once, in ascending order, and no other.
pub open spec fn lists(p: Pairs, m: Map<Seq<u8>, Seq<u8>>, keys: Set<Seq<u8>>) -> bool {
    &&& pairs_sorted(p)
    &&& forall|i: int|
        0 <= i < p.len() ==> keys.contains((#[trigger] p[i]).0) && m.contains_key(p[i].0)
            && m[p[i].0]
            == p[i].1
    &&& forall|k: Seq<u8>| #[trigger]
        keys.contains(k) ==> exists|i: int| 0 <= i < p.len() && (#[trigger] p[i]).0 == k
}

/// The keys of the map `m` that lie in the range.
pub open spec fn keys_in_range(m: Map<Seq<u8>, Seq<u8>>, start: Bound, end: Bound) -> Set<Seq<u8>> {
    Set::new(|k: Seq<u8>| m.contains_key(k) && in_range(k, start, end))
}

/// The pairs are the content of the map `m` in the range from `start` on
/// and below `end`, in ascending order of the keys.
pub open spec fn is_scan_of(p: Pairs, m: Map<Seq<u8>, Seq<u8>>, start: Bound, end: Bound) -> bool {
    lists(p, m, keys_in_range(m, start, end))
}

/// There is one list of given keys of a map: two lists of the same keys
/// are the same list.
pub proof fn lemma_lists_unique(a: Pairs, b: Pairs, m: Map<Seq<u8>, Seq<u8>>, keys: Set<Seq<u8>>)
    requires
        lists(a, m, keys),
        lists(b, m, keys),
    ensures
        a == b,
    decreases a.len(),
{
    if a.len() == 0 {
        if b.len() > 0 {
            assert(keys.contains(b[0].0));
        }
        assert(a =~= b);
    } else {
        let k = a[0].0;
        assert(keys.contains(k));
        if b.len() == 0 {
            assert(false);
        }
        let j = choose|j: int| 0 <= j < b.len() && (#[trigger] b[j]).0 == k;
        if j > 0 {
            assert(key_lt(b[0].0, b[j].0));
            assert(keys.contains(b[0].0));
            let i = choose|i: int| 0 <= i < a.len() && (#[trigger] a[i]).0 == b[0].0;
            if i > 0 {
                assert(key_lt(a[0].0, a[i].0));
            }
            lemma_key_trichotomy(a[0].0, b[0].0);
            assert(false);
        }
        assert(b[0].0 == k);
        assert(a[0] == b[0]);
        let rest = keys.remove(k);
        let a2 = a.skip(1);
        let b2 = b.skip(1);
        lemma_lists_rest(a, m, keys);
        lemma_lists_rest(b, m, keys);
        lemma_lists_unique(a2, b2, m, rest);
        assert(a =~= seq![a[0]] + a2);
        assert(b =~= seq![b[0]] + b2);
    }
}

/// A list without its first pair lists the keys without the first key.
proof fn lemma_lists_rest(a: Pairs, m: Map<Seq<u8>, Seq<u8>>, keys: Set<Seq<u8>>)
    requires
        lists(a, m, keys),
        a.len() > 0,
    ensures
        lists(a.skip(1), m, keys.remove(a[0].0)),
{
    let a2 = a.skip(1);
    let k = a[0].0;
    let rest = keys.remove(k);
    assert forall|i: int, j: int| 0 <= i < j < a2.len() implies key_lt(
        #[trigger] a2[i].0,
        #[trigger] a2[j].0,
    ) by {
        assert(a2[i] == a[i + 1] && a2[j] == a[j + 1]);
    }
    assert forall|i: int| 0 <= i < a2.len() implies rest.contains((#[trigger] a2[i]).0)
        && m.contains_key(a2[i].0) && m[a2[i].0] == a2[i].1 by {
        assert(a2[i] == a[i + 1]);
        assert(key_lt(a[0].0, a[i + 1].0));
        lemma_key_lt_irreflexive(k);
    }
    assert forall|x: Seq<u8>| #[trigger] rest.contains(x) implies exists|i: int|
        0 <= i < a2.len() && (#[trigger] a2[i]).0 == x by {
        assert(keys.contains(x));
        let i = choose|i: int| 0 <= i < a.len() && (#[trigger] a[i]).0 == x;
        assert(i > 0);
        assert(a2[i - 1].0 == x);
    }
}

/// The pairs list what the subtree of `id` holds in the range, as far as
/// the root of the subtree sends the keys to a child before slot `j`.
pub open spec fn lists_slots(
    p: Pairs,
    s: Store,
    id: u32,
    h: nat,
    j: int,
    start: Bound,
    end: Bound,
) -> bool {
    &&& pairs_sorted(p)
    &&& forall|i: int|
        0 <= i < p.len() ==> subtree_get(s, id, h, (#[trigger] p[i]).0) == Some(p[i].1)
            && in_range(p[i].0, start, end) && child_slot(page_at(s, id).cells, p[i].0) < j
    &&& forall|k: Seq<u8>|
        (#[trigger] subtree_get(s, id, h, k)) is Some && in_range(k, start, end) && child_slot(
            page_at(s, id).cells,
            k,
        ) < j ==> exists|i: int| 0 <= i < p.len() && (#[trigger] p[i]).0 == k
}

/// The pairs list what the subtree of `id` holds in the range.
pub open spec fn lists_subtree(p: Pairs, s: Store, id: u32, h: nat, start: Bound, end: Bound) -> bool {
    &&& pairs_sorted(p)
    &&& forall|i: int|
        0 <= i < p.len() ==> subtree_get(s, id, h, (#[trigger] p[i]).0) == Some(p[i].1)
            && in_range(p[i].0, start, end)
    &&& forall|k: Seq<u8>|
        (#[trigger] subtree_get(s, id, h, k)) is Some && in_range(k, start, end) ==> exists|
            i: int,
        | 0 <= i < p.len() && (#[trigger] p[i]).0 == k
}

/// The list of a subtree without bounds is the scan of the tree.
pub proof fn lemma_lists_tree(p: Pairs, s: Store, root: u32, h: nat, start: Bound, end: Bound)
    requires
        root != 0,
        lists_subtree(p, s, root, h, start, end),
    ensures
        is_scan_of(p, tree_map(s, root, h), start, end),
{
    let m = tree_map(s, root, h);
    let keys = keys_in_range(m, start, end);
    assert forall|i: int| 0 <= i < p.len() implies keys.contains((#[trigger] p[i]).0)
        && m.contains_key(p[i].0) && m[p[i].0] == p[i].1 by {
        assert(subtree_get(s, root, h, p[i].0) == Some(p[i].1));
    }
    assert forall|k: Seq<u8>| #[trigger] keys.contains(k) implies exists|i: int|
        0 <= i < p.len() && (#[trigger] p[i]).0 == k by {
        assert(subtree_get(s, root, h, k) is Some);
    }
}

/// No key lies below the empty key.
pub proof fn lemma_nothing_below_empty(k: Seq<u8>, e: Seq<u8>)
    requires
        e.len() == 0,
    ensures
        !key_lt(k, e),
{
    crate::types::key_order::lemma_common_prefix(k, e);
}

/// The list of the children before slot `j` and the list of child `j`
/// make the list of the children before slot `j + 1`.
pub proof fn lemma_lists_extend(
    acc: Pairs,
    added: Pairs,
    s: Store,
    id: u32,
    h: nat,
    lo: Bound,
    hi: Bound,
    j: int,
    start: Bound,
    end: Bound,
)
    requires
        h >= 2,
        subtree_wf(s, id, h, lo, hi),
        0 <= j <= page_at(s, id).cells.len(),
        lists_slots(acc, s, id, h, j, start, end),
        lists_subtree(
            added,
            s,
            child_of(page_at(s, id), j),
            (h - 1) as nat,
            start,
            end,
        ),
    ensures
        lists_slots(acc + added, s, id, h, j + 1, start, end),
{
    let v = page_at(s, id);
    let g = (h - 1) as nat;
    let c = child_of(v, j);
    let p = acc + added;
    lemma_subtree_children(s, id, h, lo, hi);
    assert(subtree_wf(s, c, g, child_lo(v, j, lo), child_hi(v, j, hi)));
    // What child `j` lists is sent to child `j`.
    assert forall|i: int| 0 <= i < added.len() implies child_slot(v.cells, (#[trigger] added[i]).0)
        == j && subtree_get(s, id, h, added[i].0) == Some(added[i].1) by {
        let k = added[i].0;
        lemma_get_in_bounds(s, c, g, child_lo(v, j, lo), child_hi(v, j, hi), k);
        lemma_route_is(v, k, j, lo, hi);
    }
    assert forall|a: int, b: int| 0 <= a < b < p.len() implies key_lt(
        #[trigger] p[a].0,
        #[trigger] p[b].0,
    ) by {
        if b < acc.len() {
            assert(p[a] == acc[a] && p[b] == acc[b]);
        } else if a >= acc.len() {
            assert(p[a] == added[a - acc.len()] && p[b] == added[b - acc.len()]);
        } else {
            assert(p[a] == acc[a] && p[b] == added[b - acc.len()]);
            let ka = p[a].0;
            let kb = p[b].0;
            lemma_child_slot(v.cells, ka);
            lemma_child_slot(v.cells, kb);
            let i = child_slot(v.cells, ka) as int;
            assert(i < j);
            assert(key_lt(ka, v.cells[i].key));
            assert(key_le(v.cells[j - 1].key, kb));
            if i < j - 1 {
                assert(key_lt(v.cells[i].key, v.cells[j - 1].key));
                lemma_key_lt_transitive(ka, v.cells[i].key, v.cells[j - 1].key);
            }
            lemma_key_lt_le(ka, v.cells[j - 1].key, kb);
        }
    }
    assert forall|i: int| 0 <= i < p.len() implies subtree_get(s, id, h, (#[trigger] p[i]).0)
        == Some(p[i].1) && in_range(p[i].0, start, end) && child_slot(v.cells, p[i].0) < j + 1 by {
        if i < acc.len() {
            assert(p[i] == acc[i]);
        } else {
            assert(p[i] == added[i - acc.len()]);
        }
    }
    assert forall|k: Seq<u8>|
        (#[trigger] subtree_get(s, id, h, k)) is Some && in_range(k, start, end) && child_slot(
            v.cells,
            k,
        ) < j + 1 implies exists|i: int| 0 <= i < p.len() && (#[trigger] p[i]).0 == k by {
        lemma_child_slot(v.cells, k);
        if child_slot(v.cells, k) < j {
            let i = choose|i: int| 0 <= i < acc.len() && (#[trigger] acc[i]).0 == k;
            assert(p[i].0 == k);
        } else {
            assert(child_for(v, k).0 == c);
            assert(subtree_get(s, c, g, k) is Some);
            let i = choose|i: int| 0 <= i < added.len() && (#[trigger] added[i]).0 == k;
            assert(p[acc.len() + i].0 == k);
        }
    }
}

/// A child that is left out of a scan holds nothing in the range: the
/// list of the children before slot `j` is the list of those before slot
/// `j + 1` where the range starts at or after the separator after child
/// `j`, or ends at or before the separator before it.
pub proof fn lemma_lists_skip(
    acc: Pairs,
    s: Store,
    id: u32,
    h: nat,
    lo: Bound,
    hi: Bound,
    j: int,
    start: Bound,
    end: Bound,
)
    requires
        h >= 2,
        subtree_wf(s, id, h, lo, hi),
        0 <= j <= page_at(s, id).cells.len(),
        lists_slots(acc, s, id, h, j, start, end),
        (j < page_at(s, id).cells.len() && start is Some && !key_lt(
            start.unwrap(),
            page_at(s, id).cells[j].key,
        )) || (j > 0 && end is Some && !key_lt(page_at(s, id).cells[j - 1].key, end.unwrap()))
            || (end is Some && end.unwrap().len() == 0),
    ensures
        lists_slots(acc, s, id, h, j + 1, start, end),
{
    let v = page_at(s, id);
    lemma_subtree_children(s, id, h, lo, hi);
    assert forall|k: Seq<u8>|
        (#[trigger] subtree_get(s, id, h, k)) is Some && in_range(k, start, end) && child_slot(
            v.cells,
            k,
        ) < j + 1 implies exists|i: int| 0 <= i < acc.len() && (#[trigger] acc[i]).0 == k by {
        lemma_child_slot(v.cells, k);
        if child_slot(v.cells, k) == j {
            if j < v.cells.len() && start is Some && !key_lt(start.unwrap(), v.cells[j].key) {
                // k < cells[j].key <= start
                assert(key_lt(k, v.cells[j].key));
                lemma_key_trichotomy(start.unwrap(), v.cells[j].key);
                lemma_key_lt_le(k, v.cells[j].key, start.unwrap());
                lemma_key_trichotomy(start.unwrap(), k);
            } else if j > 0 && end is Some && !key_lt(v.cells[j - 1].key, end.unwrap()) {
                // end <= cells[j - 1].key <= k
                assert(key_le(v.cells[j - 1].key, k));
                lemma_key_trichotomy(v.cells[j - 1].key, end.unwrap());
                lemma_key_lt_le(k, end.unwrap(), v.cells[j - 1].key);
                lemma_key_trichotomy(v.cells[j - 1].key, k);
            } else {
                lemma_nothing_below_empty(k, end.unwrap());
            }
        }
    }
}

/// A page of a subtree whose child `j` was changed in place is a page of
/// that child, or a page that the subtree had and that is as it was.
pub proof fn lemma_child_updated_page(
    s: Store,
    t: Store,
    id: u32,
    h: nat,
    lo: Bound,
    hi: Bound,
    j: int,
    fresh: Set<u32>,
    x: u32,
)
    requires
        h >= 2,
        subtree_wf(s, id, h, lo, hi),
        0 <= j <= page_at(s, id).cells.len(),
        forall|x: u32| #[trigger] in_subtree(s, id, h, x) ==> !fresh.contains(x),
        subtree_wf(
            t,
            child_of(page_at(s, id), j),
            (h - 1) as nat,
            child_lo(page_at(s, id), j, lo),
            child_hi(page_at(s, id), j, hi),
        ),
        grown_from(s, t, child_of(page_at(s, id), j), (h - 1) as nat, fresh),
        same_outside(s, t, child_of(page_at(s, id), j), (h - 1) as nat, fresh),
        in_subtree(t, id, h, x),
    ensures
        (in_subtree(s, id, h, x) && t.contains_key(x) && t[x] == s[x]) || in_subtree(
            t,
            child_of(page_at(s, id), j),
            (h - 1) as nat,
            x,
        ),
{
    let v = page_at(s, id);
    let g = (h - 1) as nat;
    let c = child_of(v, j);
    lemma_child_updated(s, t, id, h, lo, hi, j, fresh);
    lemma_subtree_children(s, id, h, lo, hi);
    lemma_subtree_children(t, id, h, lo, hi);
    assert forall|y: u32| #[trigger] in_children(s, v, h, y) implies !fresh.contains(y) by {
        assert(in_subtree(s, id, h, y));
    }
    if x == id {
        assert(in_subtree(s, id, h, id));
        assert(!in_subtree(s, c, g, id));
        assert(t.contains_key(id) == s.contains_key(id));
    } else {
        assert(in_children(t, v, h, x));
        let i = choose|i: int|
            0 <= i <= v.cells.len() && in_subtree(t, #[trigger] child_of(v, i), g, x);
        if i != j {
            lemma_untouched_child(s, t, v, h, lo, hi, j, i, fresh);
            assert(in_subtree(s, child_of(v, i), g, x));
            assert(in_children(s, v, h, x));
            lemma_untouched_page(s, t, v, h, lo, hi, j, i, fresh, x);
        }
    }
}

/// A key and its value, or none.
pub type Entry = Option<(Seq<u8>, Seq<u8>)>;

/// The key and value that a pair of vectors stands for, if there is one.
pub open spec fn entry_view(e: Option<(Vec<u8>, Vec<u8>)>) -> Entry {
    match e {
        Some((key, value)) => Some((key@, value@)),
        None => None,
    }
}

/// `k` is admitted from `from` on: it is `from` or sorts after it, and
/// sorts after it where `after` is set. Without `from`, every key is
/// admitted.
pub open spec fn admits(from: Bound, after: bool, k: Seq<u8>) -> bool {
    match from {
        None => true,
        Some(f) => if after {
            key_lt(f, k)
        } else {
            key_le(f, k)
        },
    }
}

/// `found` is the first admitted entry of the subtree of `id`: the
/// subtree holds it, its key is admitted, and no admitted key of the
/// subtree sorts before it; it is none where the subtree holds no
/// admitted key.
pub open spec fn first_in_subtree(
    found: Entry,
    s: Store,
    id: u32,
    h: nat,
    from: Bound,
    after: bool,
) -> bool {
    match found {
        Some((k, v)) => {
            &&& subtree_get(s, id, h, k) == Some(v)
            &&& admits(from, after, k)
            &&& forall|x: Seq<u8>|
                (#[trigger] subtree_get(s, id, h, x)) is Some && admits(from, after, x) ==> key_le(
                    k,
                    x,
                )
        },
        None => forall|x: Seq<u8>|
            (#[trigger] subtree_get(s, id, h, x)) is Some ==> !admits(from, after, x),
    }
}

/// `found` is the first admitted entry of the map `m`: the map holds it,
/// its key is admitted, and no admitted key of the map sorts before it;
/// it is none where the map holds no admitted key.
pub open spec fn is_first(found: Entry, m: Map<Seq<u8>, Seq<u8>>, from: Bound, after: bool) -> bool {
    match found {
        Some((k, v)) => {
            &&& m.contains_key(k)
            &&& m[k] == v
            &&& admits(from, after, k)
            &&& forall|x: Seq<u8>| #[trigger]
                m.contains_key(x) && admits(from, after, x) ==> key_le(k, x)
        },
        None => forall|x: Seq<u8>| #[trigger] m.contains_key(x) ==> !admits(from, after, x),
    }
}

/// The first admitted entry of a subtree without bounds is that of the
/// tree.
pub proof fn lemma_first_in_tree(found: Entry, s: Store, root: u32, h: nat, from: Bound, after: bool)
    requires
        root != 0,
        first_in_subtree(found, s, root, h, from, after),
    ensures
        is_first(found, tree_map(s, root, h), from, after),
{
    let m = tree_map(s, root, h);
    assert forall|x: Seq<u8>| #[trigger] m.contains_key(x) implies subtree_get(s, root, h, x) is Some by {}
}

} // verus!
