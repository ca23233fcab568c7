//! Slotted page implementation.
//!
//! ```text
//! +----------------------------------------------------+
//! |                    Page Header                     |
//! +----------------------------------------------------+
//! |                 Cell Pointer Array                 |
//! |  [ptr0][ptr1][ptr2]...      ->                     |
//! +----------------------------------------------------+
//! |                    Free Space                      |
//! +----------------------------------------------------+
//! |                 Cell Content Area                  |
//! |      <-  [cell2][cell1][cell0]                     |
//! +----------------------------------------------------+
//! ```
//!
//! Cell pointers are kept in key order; cell content grows from the end of
//! the page toward the header. A page is modelled by its kind, the child
//! pointer of its header, and the sequence of its cells in pointer order.
use crate::error::StorageError;
use crate::page::PageBuf;
use crate::page::cell::{
    Cell, CellType, CellView, interior_view, leaf_view, lemma_interior_roundtrip,
    lemma_leaf_roundtrip, spec_decode_cell, spec_encode_cell,
};
use crate::page::header::{INTERIOR_HEADER_SIZE, LEAF_HEADER_SIZE, PageHeader};
use crate::types::{PAGE_SIZE, PageType};
use crate::types::endian::{
    be16_at, be16_bytes, lemma_be16_roundtrip, overwrite, read_u16_be, write_u16_be,
};
use crate::types::key_order::{
    compare_keys, key_le, key_lt, KeyOrder, lemma_key_lt_transitive, lemma_key_trichotomy,
};
use crate::types::page_id::PageId;
use crate::types::text::{numbered, with_number};
use vstd::prelude::*;
use vstd::slice::slice_subrange;

verus! {

/// What a page stands for.
pub ghost struct PageView {
    /// The kind of the page.
    pub page_type: PageType,
    /// The child pointer of the header: the subtree of the keys below the
    /// first separator. Zero on a page that is not interior.
    pub right_child: PageId,
    /// The cells, in pointer order.
    pub cells: Seq<CellView>,
}

/// The kind of cell that pages of type `t` hold, if they hold cells.
pub open spec fn cell_kind(t: PageType) -> Option<CellType> {
    if t.spec_is_leaf() {
        Some(CellType::Leaf)
    } else if t.spec_is_interior() {
        Some(CellType::Interior)
    } else {
        None
    }
}

/// Keys in strictly ascending order, so that none occurs twice.
pub open spec fn keys_sorted(cells: Seq<CellView>) -> bool {
    forall|i: int, j: int|
        0 <= i < j < cells.len() ==> key_lt(#[trigger] cells[i].key, #[trigger] cells[j].key)
}

/// Every cell is of kind `kind`, with the unused field at its fixed value.
pub open spec fn cells_of_kind(cells: Seq<CellView>, kind: CellType) -> bool {
    forall|i: int|
        0 <= i < cells.len() ==> {
            let c = #[trigger] cells[i];
            match kind {
                CellType::Leaf => c == leaf_view(c.key, c.value),
                CellType::Interior => c == interior_view(c.key, c.left_child),
            }
        }
}

/// What holds of the model of every page: cells only on leaf and interior
/// pages, of the page's kind, in strictly ascending key order, at most as
/// many as a page has room for; a child pointer in the header only on an
/// interior page.
pub open spec fn view_wf(v: PageView) -> bool {
    &&& keys_sorted(v.cells)
    &&& v.cells.len() <= PAGE_SIZE / 2
    &&& match cell_kind(v.page_type) {
        Some(kind) => cells_of_kind(v.cells, kind),
        None => v.cells.len() == 0,
    }
    &&& !v.page_type.spec_is_interior() ==> v.right_child == PageId(0)
}

/// Number of leading cells whose key is at most `key`: where cells are
/// sorted, the number of all such cells.
pub open spec fn child_slot(cells: Seq<CellView>, key: Seq<u8>) -> nat
    decreases cells.len(),
{
    if cells.len() == 0 {
        0
    } else if key_lt(key, cells.last().key) {
        child_slot(cells.drop_last(), key)
    } else {
        cells.len()
    }
}

/// The child of an interior page under which `key` belongs: the header's
/// child pointer where `key` is below every separator, else the child of
/// the last separator that is at most `key`.
pub open spec fn child_for(v: PageView, key: Seq<u8>) -> PageId {
    let n = child_slot(v.cells, key);
    if n == 0 {
        v.right_child
    } else {
        v.cells[n - 1].left_child
    }
}

/// In sorted cells, `child_slot` parts the cells at most `key` from those
/// above it.
pub proof fn lemma_child_slot(cells: Seq<CellView>, key: Seq<u8>)
    requires
        keys_sorted(cells),
    ensures
        child_slot(cells, key) <= cells.len(),
        forall|i: int| 0 <= i < child_slot(cells, key) ==> key_le(#[trigger] cells[i].key, key),
        forall|i: int|
            child_slot(cells, key) <= i < cells.len() ==> key_lt(key, #[trigger] cells[i].key),
    decreases cells.len(),
{
    if cells.len() > 0 {
        let last = cells.last();
        let front = cells.drop_last();
        if key_lt(key, last.key) {
            assert forall|i: int, j: int| 0 <= i < j < front.len() implies key_lt(
                #[trigger] front[i].key,
                #[trigger] front[j].key,
            ) by {
                assert(front[i] == cells[i] && front[j] == cells[j]);
            }
            lemma_child_slot(front, key);
            assert forall|i: int| child_slot(cells, key) <= i < cells.len() implies key_lt(
                key,
                #[trigger] cells[i].key,
            ) by {
                if i < front.len() {
                    assert(cells[i] == front[i]);
                }
            }
            assert forall|i: int| 0 <= i < child_slot(cells, key) implies key_le(
                #[trigger] cells[i].key,
                key,
            ) by {
                assert(cells[i] == front[i]);
            }
        } else {
            lemma_key_trichotomy(key, last.key);
            assert forall|i: int| 0 <= i < cells.len() implies key_le(
                #[trigger] cells[i].key,
                key,
            ) by {
                if i < cells.len() - 1 {
                    assert(key_lt(cells[i].key, cells[cells.len() - 1].key));
                    if last.key != key {
                        lemma_key_lt_transitive(cells[i].key, last.key, key);
                    }
                }
            }
        }
    }
}

/// A position that parts sorted cells at `key` is `child_slot`.
pub proof fn lemma_child_slot_is(cells: Seq<CellView>, key: Seq<u8>, n: int)
    requires
        keys_sorted(cells),
        0 <= n <= cells.len(),
        forall|i: int| 0 <= i < n ==> key_le(#[trigger] cells[i].key, key),
        forall|i: int| n <= i < cells.len() ==> key_lt(key, #[trigger] cells[i].key),
    ensures
        child_slot(cells, key) == n,
{
    lemma_child_slot(cells, key);
    let m = child_slot(cells, key) as int;
    if m < n {
        assert(key_le(cells[m].key, key));
        assert(key_lt(key, cells[m].key));
        lemma_key_trichotomy(key, cells[m].key);
    } else if n < m {
        assert(key_le(cells[n].key, key));
        assert(key_lt(key, cells[n].key));
        lemma_key_trichotomy(key, cells[n].key);
    }
}

/// Bytes that the cells take when encoded, all together.
pub open spec fn cells_size(cells: Seq<CellView>) -> nat
    decreases cells.len(),
{
    if cells.len() == 0 {
        0
    } else {
        cells_size(cells.drop_last()) + spec_encode_cell(cells.last()).len()
    }
}

/// Adding a cell adds its size.
pub proof fn lemma_cells_size_insert(cells: Seq<CellView>, pos: int, c: CellView)
    requires
        0 <= pos <= cells.len(),
    ensures
        cells_size(cells.insert(pos, c)) == cells_size(cells) + spec_encode_cell(c).len(),
    decreases cells.len(),
{
    let t = cells.insert(pos, c);
    if pos == cells.len() {
        assert(t.drop_last() =~= cells);
        assert(t.last() == c);
    } else {
        assert(t.last() == cells.last());
        assert(t.drop_last() =~= cells.drop_last().insert(pos, c));
        lemma_cells_size_insert(cells.drop_last(), pos, c);
    }
}

/// Removing a cell takes its size away.
pub proof fn lemma_cells_size_remove(cells: Seq<CellView>, i: int)
    requires
        0 <= i < cells.len(),
    ensures
        cells_size(cells.remove(i)) + spec_encode_cell(cells[i]).len() == cells_size(cells),
{
    let t = cells.remove(i);
    assert(t.insert(i, cells[i]) =~= cells);
    lemma_cells_size_insert(t, i, cells[i]);
}

/// The size of cells is the size of a front part and of the rest.
pub proof fn lemma_cells_size_split(cells: Seq<CellView>, k: int)
    requires
        0 <= k <= cells.len(),
    ensures
        cells_size(cells) == cells_size(cells.take(k)) + cells_size(cells.skip(k)),
    decreases cells.len() - k,
{
    if k == cells.len() {
        assert(cells.take(k) =~= cells);
        assert(cells.skip(k) =~= Seq::<CellView>::empty());
    } else {
        lemma_cells_size_split(cells, k + 1);
        assert(cells.take(k + 1) =~= cells.take(k).insert(k, cells[k]));
        lemma_cells_size_insert(cells.take(k), k, cells[k]);
        assert(cells.skip(k) =~= cells.skip(k + 1).insert(0, cells[k]));
        lemma_cells_size_insert(cells.skip(k + 1), 0, cells[k]);
    }
}

/// The cell pointer in slot `i` of a page whose header takes `hs` bytes.
#[verifier::opaque]
pub open spec fn slot_at(d: Seq<u8>, hs: int, i: int) -> int {
    be16_at(d, hs + 2 * i) as int
}

/// The cell of kind `kind` that starts at byte `p` of the page, and its
/// length.
#[verifier::opaque]
pub open spec fn cell_at(kind: CellType, d: Seq<u8>, p: int) -> Option<(CellView, nat)> {
    spec_decode_cell(kind, d.skip(p))
}

/// The cells that the slots of `d` point to, under the header `h`.
pub open spec fn cells_under(d: Seq<u8>, h: PageHeader) -> Seq<CellView> {
    match cell_kind(h.page_type) {
        Some(kind) => Seq::new(
            h.cell_count as nat,
            |i: int| cell_at(kind, d, slot_at(d, h.spec_size() as int, i)).unwrap().0,
        ),
        None => Seq::empty(),
    }
}

/// Whether pointers and content of `d` are laid out as the header `h` says:
/// the pointer array ends before the content starts; every pointer
/// addresses a well-formed cell within the content area; the keys ascend;
/// the cells take no more bytes than the content area has.
#[verifier::opaque]
pub open spec fn layout_wf(d: Seq<u8>, h: PageHeader) -> bool {
    &&& d.len() == PAGE_SIZE
    &&& h.stored() == h
    &&& match cell_kind(h.page_type) {
        None => h.cell_count == 0,
        Some(kind) => {
            &&& h.spec_cell_pointer_array_end() <= h.cell_content_start <= PAGE_SIZE
            &&& forall|i: int|
                0 <= i < h.cell_count ==> h.cell_content_start <= #[trigger] slot_at(
                    d,
                    h.spec_size() as int,
                    i,
                ) < PAGE_SIZE
            &&& forall|i: int|
                0 <= i < h.cell_count ==> (#[trigger] cell_at(
                    kind,
                    d,
                    slot_at(d, h.spec_size() as int, i),
                )) is Some
            &&& keys_sorted(cells_under(d, h))
            &&& cells_size(cells_under(d, h)) <= PAGE_SIZE - h.cell_content_start
        },
    }
}

/// Whether `d` is the image of a well-formed page.
pub open spec fn image_wf(d: Seq<u8>) -> bool {
    &&& d.len() == PAGE_SIZE
    &&& PageHeader::spec_read(d) is Some
    &&& layout_wf(d, PageHeader::spec_read(d).unwrap())
}

/// What the page image `d` stands for.
pub open spec fn view_of_image(d: Seq<u8>) -> PageView {
    let h = PageHeader::spec_read(d).unwrap();
    PageView {
        page_type: h.page_type,
        right_child: PageId(h.right_child),
        cells: cells_under(d, h),
    }
}

/// The number of fragmented bytes as the header counts them: the count
/// stops at 255.
pub open spec fn fragmented_count(dead: int) -> u8 {
    if dead >= 255 {
        255
    } else if dead < 0 {
        0
    } else {
        dead as u8
    }
}

/// Where the bytes of the cell in slot `i` start.
pub open spec fn extent_start(d: Seq<u8>, h: PageHeader, i: int) -> int {
    slot_at(d, h.spec_size() as int, i)
}

/// How many bytes the cell in slot `i` takes.
pub open spec fn extent_len(d: Seq<u8>, h: PageHeader, i: int) -> nat {
    cell_at(cell_kind(h.page_type).unwrap(), d, slot_at(d, h.spec_size() as int, i)).unwrap().1
}

/// Whether the content of `d` is laid out tidily under the header `h`:
/// every cell takes the bytes of its encoding and no more; no two cells
/// share a byte; and the header counts as fragmented what the content
/// area holds beside the cells, so that the start of the content, the
/// bytes of the cells and the fragmented bytes add up to the page size
/// (as far as the header can count: up to 255 fragmented bytes).
#[verifier::opaque]
pub open spec fn layout_tidy(d: Seq<u8>, h: PageHeader) -> bool {
    cell_kind(h.page_type) is Some ==> {
        &&& forall|i: int|
            0 <= i < h.cell_count ==> #[trigger] extent_len(d, h, i) == spec_encode_cell(
                cells_under(d, h)[i],
            ).len()
        &&& forall|i: int, j: int|
            0 <= i < h.cell_count && 0 <= j < h.cell_count && i != j ==> #[trigger] extent_start(
                d,
                h,
                i,
            ) + extent_len(d, h, i) <= #[trigger] extent_start(d, h, j) || extent_start(d, h, j)
                + extent_len(d, h, j) <= extent_start(d, h, i)
        &&& h.fragmented_bytes == fragmented_count(
            PAGE_SIZE - h.cell_content_start - cells_size(cells_under(d, h)),
        )
    }
}

/// Whether `d` is the image of a page whose content is laid out tidily.
pub open spec fn image_tidy(d: Seq<u8>) -> bool {
    PageHeader::spec_read(d) is Some && layout_tidy(d, PageHeader::spec_read(d).unwrap())
}

/// A decoded cell is of the kind asked for.
proof fn lemma_decoded_kind(kind: CellType, s: Seq<u8>)
    requires
        spec_decode_cell(kind, s) is Some,
    ensures
        ({
            let c = spec_decode_cell(kind, s).unwrap().0;
            match kind {
                CellType::Leaf => c == leaf_view(c.key, c.value),
                CellType::Interior => c == interior_view(c.key, c.left_child),
            }
        }),
        spec_decode_cell(kind, s).unwrap().1 <= s.len(),
        spec_decode_cell(kind, s).unwrap().0.key.len() + spec_decode_cell(
            kind,
            s,
        ).unwrap().0.value.len() <= s.len(),
{
}

/// The model of a well-formed image is well formed.
pub proof fn lemma_image_view_wf(d: Seq<u8>)
    requires
        image_wf(d),
    ensures
        view_wf(view_of_image(d)),
        forall|i: int|
            0 <= i < view_of_image(d).cells.len() ==> (#[trigger] view_of_image(
                d,
            ).cells[i]).key.len() + view_of_image(d).cells[i].value.len() <= PAGE_SIZE,
{
    let h = PageHeader::spec_read(d).unwrap();
    let v = view_of_image(d);
    reveal(layout_wf);
    match cell_kind(h.page_type) {
        Some(kind) => {
            assert forall|i: int| 0 <= i < v.cells.len() implies {
                let c = #[trigger] v.cells[i];
                &&& match kind {
                    CellType::Leaf => c == leaf_view(c.key, c.value),
                    CellType::Interior => c == interior_view(c.key, c.left_child),
                }
                &&& c.key.len() + c.value.len() <= PAGE_SIZE
            } by {
                let p = slot_at(d, h.spec_size() as int, i);
                assert(cell_at(kind, d, p) is Some);
                reveal(cell_at);
                lemma_decoded_kind(kind, d.skip(p));
            }
        },
        None => {},
    }
}

/// What a well-formed, tidy page image is, spelled out: the keys that its
/// cell pointers lead to ascend strictly; every cell lies within the
/// content area; no two cells share a byte; and the start of the content,
/// the bytes of the cells and the fragmented bytes add up to the page
/// size, unless the count of fragmented bytes stands at its limit of 255,
/// where they add up to no more.
pub proof fn lemma_page_layout(d: Seq<u8>)
    requires
        image_wf(d),
        image_tidy(d),
        cell_kind(PageHeader::spec_read(d).unwrap().page_type) is Some,
    ensures
        ({
            let h = PageHeader::spec_read(d).unwrap();
            let cells = view_of_image(d).cells;
            &&& cells.len() == h.cell_count
            &&& keys_sorted(cells)
            &&& forall|i: int|
                0 <= i < h.cell_count ==> h.cell_content_start <= #[trigger] extent_start(d, h, i)
                    && extent_start(d, h, i) + extent_len(d, h, i) <= PAGE_SIZE
            &&& forall|i: int|
                0 <= i < h.cell_count ==> #[trigger] extent_len(d, h, i) == spec_encode_cell(
                    cells[i],
                ).len()
            &&& forall|i: int, j: int|
                0 <= i < h.cell_count && 0 <= j < h.cell_count && i != j
                    ==> #[trigger] extent_start(
                    d,
                    h,
                    i,
                ) + extent_len(d, h, i) <= #[trigger] extent_start(d, h, j) || extent_start(d, h, j)
                    + extent_len(d, h, j) <= extent_start(d, h, i)
            &&& h.fragmented_bytes < 255 ==> h.cell_content_start + cells_size(cells)
                + h.fragmented_bytes == PAGE_SIZE
            &&& h.cell_content_start + cells_size(cells) + h.fragmented_bytes <= PAGE_SIZE
        }),
{
    let h = PageHeader::spec_read(d).unwrap();
    let kind = cell_kind(h.page_type).unwrap();
    reveal(layout_wf);
    reveal(layout_tidy);
    assert forall|i: int| 0 <= i < h.cell_count implies h.cell_content_start
        <= #[trigger] extent_start(d, h, i) && extent_start(d, h, i) + extent_len(d, h, i)
        <= PAGE_SIZE by {
        let p = slot_at(d, h.spec_size() as int, i);
        assert(cell_at(kind, d, p) is Some);
        reveal(cell_at);
    }
}

/// Bytes that agree from `p` on give the same cell at `p`.
proof fn lemma_cell_at_frame(kind: CellType, d: Seq<u8>, e: Seq<u8>, p: int)
    requires
        d.len() == e.len(),
        0 <= p <= d.len(),
        forall|j: int| p <= j < d.len() ==> d[j] == e[j],
    ensures
        cell_at(kind, d, p) == cell_at(kind, e, p),
{
    reveal(cell_at);
    assert(d.skip(p) =~= e.skip(p));
}

/// Writing a header over the start of a page whose pointers and content
/// are laid out as that header says gives a well-formed image of the same
/// cells.
proof fn lemma_header_sync(d: Seq<u8>, h: PageHeader)
    requires
        layout_wf(d, h),
    ensures
        image_wf(h.spec_write(d)),
        PageHeader::spec_read(h.spec_write(d)) == Some(h),
        cells_under(h.spec_write(d), h) == cells_under(d, h),
        forall|j: int| h.spec_size() <= j < d.len() ==> h.spec_write(d)[j] == d[j],
{
    let e = h.spec_write(d);
    assert(d.len() == PAGE_SIZE && h.stored() == h) by {
        reveal(layout_wf);
    }
    h.lemma_write_read(d);
    lemma_layout_frame(d, e, h);
}

/// Changes below the header's end leave the layout and the cells as they
/// were.
proof fn lemma_layout_frame(d: Seq<u8>, e: Seq<u8>, h: PageHeader)
    requires
        layout_wf(d, h),
        e.len() == d.len(),
        forall|j: int| h.spec_size() <= j < d.len() ==> e[j] == d[j],
    ensures
        layout_wf(e, h),
        cells_under(e, h) == cells_under(d, h),
{
    let hs = h.spec_size() as int;
    reveal(slot_at);
    reveal(layout_wf);
    match cell_kind(h.page_type) {
        Some(kind) => {
            assert forall|i: int| 0 <= i < h.cell_count implies slot_at(e, hs, i) == slot_at(
                d,
                hs,
                i,
            ) && cell_at(kind, e, slot_at(e, hs, i)) == cell_at(kind, d, slot_at(d, hs, i)) by {
                let p = slot_at(d, hs, i);
                assert(h.cell_content_start <= p < PAGE_SIZE);
                lemma_cell_at_frame(kind, d, e, p);
            }
            assert(cells_under(e, h) =~= cells_under(d, h));
        },
        None => {},
    }
}


/// Writing one cell pointer changes that slot and nothing else.
proof fn lemma_slot_write(d: Seq<u8>, hs: int, k: int, v: u16)
    requires
        0 <= hs,
        0 <= k,
        hs + 2 * k + 2 <= d.len(),
    ensures
        overwrite(d, hs + 2 * k, be16_bytes(v)).len() == d.len(),
        slot_at(overwrite(d, hs + 2 * k, be16_bytes(v)), hs, k) == v,
        forall|i: int|
            0 <= i && i != k && hs + 2 * i + 2 <= d.len() ==> #[trigger] slot_at(
                overwrite(d, hs + 2 * k, be16_bytes(v)),
                hs,
                i,
            ) == slot_at(d, hs, i),
        forall|j: int|
            0 <= j < d.len() && !(hs + 2 * k <= j < hs + 2 * k + 2) ==> #[trigger] overwrite(
                d,
                hs + 2 * k,
                be16_bytes(v),
            )[j] == d[j],
{
    reveal(slot_at);
    lemma_be16_roundtrip(v);
}

/// The keys stay sorted when a cell goes in where its key belongs.
proof fn lemma_sorted_insert(cells: Seq<CellView>, pos: int, c: CellView)
    requires
        keys_sorted(cells),
        0 <= pos <= cells.len(),
        forall|i: int| 0 <= i < pos ==> key_lt(#[trigger] cells[i].key, c.key),
        forall|i: int| pos <= i < cells.len() ==> key_lt(c.key, #[trigger] cells[i].key),
    ensures
        keys_sorted(cells.insert(pos, c)),
{
    let t = cells.insert(pos, c);
    assert forall|i: int, j: int| 0 <= i < j < t.len() implies key_lt(
        #[trigger] t[i].key,
        #[trigger] t[j].key,
    ) by {
        if i < pos {
            assert(t[i] == cells[i]);
        } else if i > pos {
            assert(t[i] == cells[i - 1]);
        }
        if j < pos {
            assert(t[j] == cells[j]);
        } else if j > pos {
            assert(t[j] == cells[j - 1]);
        }
    }
}

/// The keys stay sorted when a cell leaves.
proof fn lemma_sorted_remove(cells: Seq<CellView>, k: int)
    requires
        keys_sorted(cells),
        0 <= k < cells.len(),
    ensures
        keys_sorted(cells.remove(k)),
{
    let t = cells.remove(k);
    assert forall|i: int, j: int| 0 <= i < j < t.len() implies key_lt(
        #[trigger] t[i].key,
        #[trigger] t[j].key,
    ) by {
        let a = if i < k { i } else { i + 1 };
        let b = if j < k { j } else { j + 1 };
        assert(t[i] == cells[a]);
        assert(t[j] == cells[b]);
    }
}

/// A part of sorted cells is sorted.
pub proof fn lemma_sorted_subrange(cells: Seq<CellView>, from: int, to: int)
    requires
        keys_sorted(cells),
        0 <= from <= to <= cells.len(),
    ensures
        keys_sorted(cells.subrange(from, to)),
{
    let t = cells.subrange(from, to);
    assert forall|i: int, j: int| 0 <= i < j < t.len() implies key_lt(
        #[trigger] t[i].key,
        #[trigger] t[j].key,
    ) by {
        assert(t[i] == cells[from + i]);
        assert(t[j] == cells[from + j]);
    }
}

/// A part of the cells is no larger than all of them.
pub proof fn lemma_cells_size_subrange(cells: Seq<CellView>, from: int, to: int)
    requires
        0 <= from <= to <= cells.len(),
    ensures
        cells_size(cells.subrange(from, to)) <= cells_size(cells),
{
    lemma_cells_size_split(cells, to);
    lemma_cells_size_split(cells.take(to), from);
    assert(cells.take(to).skip(from) =~= cells.subrange(from, to));
}

/// What a page holds once a cell is written below the old content, the
/// pointers from `pos` on have moved up one slot and slot `pos` points to
/// the new cell: the old cells with the new one at `pos`.
proof fn lemma_insert_layout(d0: Seq<u8>, h0: PageHeader, d3: Seq<u8>, c: CellView, pos: int)
    requires
        layout_wf(d0, h0),
        cell_kind(h0.page_type) == Some(c.cell_type),
        d3.len() == PAGE_SIZE,
        0 <= pos <= h0.cell_count,
        h0.spec_cell_pointer_array_end() + 2 + spec_encode_cell(c).len() <= h0.cell_content_start,
        forall|j: int| h0.cell_content_start <= j < PAGE_SIZE ==> d3[j] == d0[j],
        cell_at(c.cell_type, d3, h0.cell_content_start - spec_encode_cell(c).len()) == Some(
            (c, spec_encode_cell(c).len()),
        ),
        forall|j: int|
            0 <= j < pos ==> slot_at(d3, h0.spec_size() as int, j) == slot_at(
                d0,
                h0.spec_size() as int,
                j,
            ),
        slot_at(d3, h0.spec_size() as int, pos) == h0.cell_content_start - spec_encode_cell(
            c,
        ).len(),
        forall|j: int|
            pos < j <= h0.cell_count ==> slot_at(d3, h0.spec_size() as int, j) == slot_at(
                d0,
                h0.spec_size() as int,
                j - 1,
            ),
        forall|i: int| 0 <= i < pos ==> key_lt(#[trigger] cells_under(d0, h0)[i].key, c.key),
        forall|i: int|
            pos <= i < h0.cell_count ==> key_lt(c.key, #[trigger] cells_under(d0, h0)[i].key),
    ensures
        layout_wf(
            d3,
            PageHeader {
                cell_count: (h0.cell_count + 1) as u16,
                cell_content_start: (h0.cell_content_start - spec_encode_cell(c).len()) as u16,
                ..h0
            },
        ),
        cells_under(
            d3,
            PageHeader {
                cell_count: (h0.cell_count + 1) as u16,
                cell_content_start: (h0.cell_content_start - spec_encode_cell(c).len()) as u16,
                ..h0
            },
        ) == cells_under(d0, h0).insert(pos, c),
{
    reveal(layout_wf);
    let kind = c.cell_type;
    let size = spec_encode_cell(c).len();
    let new_start = h0.cell_content_start - size;
    let hs = h0.spec_size() as int;
    let h1 = PageHeader {
        cell_count: (h0.cell_count + 1) as u16,
        cell_content_start: new_start as u16,
        ..h0
    };
    let old_cells = cells_under(d0, h0);
    assert forall|j: int| 0 <= j < h1.cell_count implies {
        &&& new_start <= #[trigger] slot_at(d3, hs, j) < PAGE_SIZE
        &&& cell_at(kind, d3, slot_at(d3, hs, j)) == (if j < pos {
            cell_at(kind, d0, slot_at(d0, hs, j))
        } else if j == pos {
            Some((c, size))
        } else {
            cell_at(kind, d0, slot_at(d0, hs, j - 1))
        })
    } by {
        if j != pos {
            let src = if j < pos { j } else { j - 1 };
            let p = slot_at(d0, hs, src);
            assert(h0.cell_content_start <= p < PAGE_SIZE);
            lemma_cell_at_frame(kind, d3, d0, p);
        }
    }
    assert forall|j: int| 0 <= j < h1.cell_count implies (#[trigger] cell_at(
        kind,
        d3,
        slot_at(d3, hs, j),
    )) is Some by {
        let src = if j < pos { j } else { j - 1 };
        if j != pos {
            assert(cell_at(kind, d0, slot_at(d0, hs, src)) is Some);
        }
    }
    assert(cells_under(d3, h1) =~= old_cells.insert(pos, c));
    lemma_sorted_insert(old_cells, pos, c);
    lemma_cells_size_insert(old_cells, pos, c);
}

/// The bytes of a page after an insertion hold the old cells and the new
/// one: `d1` has the cell written below the old content, `d2` has the
/// pointers from `pos` on moved one slot up, `d3` has slot `pos` pointing
/// to the new cell.
proof fn lemma_insert_bytes(
    d0: Seq<u8>,
    h0: PageHeader,
    d1: Seq<u8>,
    d2: Seq<u8>,
    d3: Seq<u8>,
    c: CellView,
    pos: int,
)
    requires
        layout_wf(d0, h0),
        cell_kind(h0.page_type) == Some(c.cell_type),
        c.key.len() <= u64::MAX,
        c.value.len() <= u64::MAX,
        c == leaf_view(c.key, c.value) || c == interior_view(c.key, c.left_child),
        0 <= pos <= h0.cell_count,
        h0.spec_cell_pointer_array_end() + 2 + spec_encode_cell(c).len() <= h0.cell_content_start,
        h0.cell_content_start <= PAGE_SIZE,
        d1 == overwrite(
            d0,
            h0.cell_content_start - spec_encode_cell(c).len(),
            spec_encode_cell(c),
        ),
        d2.len() == PAGE_SIZE,
        forall|j: int| h0.spec_size() + 2 * (h0.cell_count + 1) <= j < PAGE_SIZE ==> d2[j] == d1[j],
        forall|j: int|
            0 <= j < pos ==> slot_at(d2, h0.spec_size() as int, j) == slot_at(
                d1,
                h0.spec_size() as int,
                j,
            ),
        forall|j: int|
            pos < j <= h0.cell_count ==> slot_at(d2, h0.spec_size() as int, j) == slot_at(
                d1,
                h0.spec_size() as int,
                j - 1,
            ),
        d3 == overwrite(
            d2,
            h0.spec_size() + 2 * pos,
            be16_bytes((h0.cell_content_start - spec_encode_cell(c).len()) as u16),
        ),
        forall|i: int| 0 <= i < pos ==> key_lt(#[trigger] cells_under(d0, h0)[i].key, c.key),
        forall|i: int|
            pos <= i < h0.cell_count ==> key_lt(c.key, #[trigger] cells_under(d0, h0)[i].key),
    ensures
        layout_wf(
            d3,
            PageHeader {
                cell_count: (h0.cell_count + 1) as u16,
                cell_content_start: (h0.cell_content_start - spec_encode_cell(c).len()) as u16,
                ..h0
            },
        ),
        cells_under(
            d3,
            PageHeader {
                cell_count: (h0.cell_count + 1) as u16,
                cell_content_start: (h0.cell_content_start - spec_encode_cell(c).len()) as u16,
                ..h0
            },
        ) == cells_under(d0, h0).insert(pos, c),
        layout_tidy(d0, h0) ==> layout_tidy(
            d3,
            PageHeader {
                cell_count: (h0.cell_count + 1) as u16,
                cell_content_start: (h0.cell_content_start - spec_encode_cell(c).len()) as u16,
                ..h0
            },
        ),
{
    let kind = c.cell_type;
    let enc = spec_encode_cell(c);
    let cs = h0.cell_content_start as int;
    let new_start = cs - enc.len();
    let hs = h0.spec_size() as int;
    assert(d0.len() == PAGE_SIZE) by {
        reveal(layout_wf);
    }
    assert(cell_at(kind, d1, new_start) == Some((c, enc.len()))) by {
        reveal(cell_at);
        let rest = d0.skip(cs);
        assert(d1.skip(new_start) =~= enc + rest);
        match kind {
            CellType::Leaf => {
                lemma_leaf_roundtrip(c.key, c.value, rest);
            },
            CellType::Interior => {
                lemma_interior_roundtrip(c.key, c.left_child, rest);
            },
        }
    }
    lemma_slot_write(d2, hs, pos, new_start as u16);
    lemma_cell_at_frame(kind, d3, d1, new_start);
    assert forall|j: int| 0 <= j <= h0.cell_count implies #[trigger] slot_at(d1, hs, j) == slot_at(
        d0,
        hs,
        j,
    ) by {
        reveal(slot_at);
    }
    assert forall|j: int| 0 <= j < pos implies slot_at(d3, hs, j) == slot_at(d0, hs, j) by {
        assert(slot_at(d3, hs, j) == slot_at(d2, hs, j));
        assert(slot_at(d1, hs, j) == slot_at(d0, hs, j));
    }
    assert forall|j: int| pos < j <= h0.cell_count implies slot_at(d3, hs, j) == slot_at(
        d0,
        hs,
        j - 1,
    ) by {
        assert(slot_at(d3, hs, j) == slot_at(d2, hs, j));
        assert(slot_at(d1, hs, j - 1) == slot_at(d0, hs, j - 1));
    }
    lemma_insert_layout(d0, h0, d3, c, pos);
    if layout_tidy(d0, h0) {
        assert forall|j: int| cs <= j < PAGE_SIZE implies d3[j] == d0[j] by {
            assert(d2[j] == d1[j]);
        }
        lemma_insert_tidy(d0, h0, d3, c, pos);
    }
}

/// What a page holds once the pointers above slot `idx` have moved one
/// slot down: the old cells without the one of slot `idx`.
proof fn lemma_delete_layout(d0: Seq<u8>, h0: PageHeader, d1: Seq<u8>, idx: int, frag: u8)
    requires
        layout_wf(d0, h0),
        0 <= idx < h0.cell_count,
        d1.len() == PAGE_SIZE,
        forall|j: int| h0.spec_cell_pointer_array_end() <= j < PAGE_SIZE ==> d1[j] == d0[j],
        forall|j: int|
            0 <= j < idx ==> slot_at(d1, h0.spec_size() as int, j) == slot_at(
                d0,
                h0.spec_size() as int,
                j,
            ),
        forall|j: int|
            idx <= j < h0.cell_count - 1 ==> slot_at(d1, h0.spec_size() as int, j) == slot_at(
                d0,
                h0.spec_size() as int,
                j + 1,
            ),
    ensures
        layout_wf(
            d1,
            PageHeader { cell_count: (h0.cell_count - 1) as u16, fragmented_bytes: frag, ..h0 },
        ),
        cells_under(
            d1,
            PageHeader { cell_count: (h0.cell_count - 1) as u16, fragmented_bytes: frag, ..h0 },
        ) == cells_under(d0, h0).remove(idx),
{
    reveal(layout_wf);
    let hs = h0.spec_size() as int;
    let h1 = PageHeader { cell_count: (h0.cell_count - 1) as u16, fragmented_bytes: frag, ..h0 };
    let kind = cell_kind(h0.page_type).unwrap();
    let old_cells = cells_under(d0, h0);
    assert forall|j: int| 0 <= j < h1.cell_count implies {
        &&& h1.cell_content_start <= #[trigger] slot_at(d1, hs, j) < PAGE_SIZE
        &&& cell_at(kind, d1, slot_at(d1, hs, j)) == cell_at(
            kind,
            d0,
            slot_at(d0, hs, if j < idx { j } else { j + 1 }),
        )
    } by {
        let src = if j < idx { j } else { j + 1 };
        let p = slot_at(d0, hs, src);
        assert(h0.cell_content_start <= p < PAGE_SIZE);
        lemma_cell_at_frame(kind, d1, d0, p);
    }
    assert forall|j: int| 0 <= j < h1.cell_count implies (#[trigger] cell_at(
        kind,
        d1,
        slot_at(d1, hs, j),
    )) is Some by {
        let src = if j < idx { j } else { j + 1 };
        assert(cell_at(kind, d0, slot_at(d0, hs, src)) is Some);
    }
    assert(cells_under(d1, h1) =~= old_cells.remove(idx));
    lemma_sorted_remove(old_cells, idx);
    lemma_cells_size_remove(old_cells, idx);
}

/// The models of a list of cells.
pub open spec fn views_of(cells: Seq<Cell>) -> Seq<CellView> {
    Seq::new(cells.len(), |i: int| cells[i]@)
}

/// The kind in which a page is rebuilt: the table kind of its class.
pub open spec fn rebuilt_type(t: PageType) -> PageType {
    if t.spec_is_leaf() {
        PageType::LeafTable
    } else if t.spec_is_interior() {
        PageType::InteriorTable
    } else {
        t
    }
}

/// The header of a page that holds the cells of `v` without a gap.
pub open spec fn packed_header(v: PageView) -> PageHeader {
    PageHeader {
        page_type: v.page_type,
        first_freeblock: 0,
        cell_count: v.cells.len() as u16,
        cell_content_start: (PAGE_SIZE - cells_size(v.cells)) as u16,
        fragmented_bytes: 0,
        right_child: v.right_child.0,
    }
}

/// A page of zeros.
pub open spec fn blank() -> Seq<u8> {
    Seq::new(PAGE_SIZE as nat, |i: int| 0u8)
}

/// The image `d` of a page with the header `h` once the bytes `enc` of a
/// cell were appended: the bytes stand right below the content, the
/// pointer to them stands in the slot after the last, and the header
/// counts the cell.
pub open spec fn image_with_cell(d: Seq<u8>, h: PageHeader, enc: Seq<u8>) -> Seq<u8> {
    let start = h.cell_content_start - enc.len();
    (PageHeader {
        cell_count: (h.cell_count + 1) as u16,
        cell_content_start: start as u16,
        ..h
    }).spec_write(
        overwrite(
            overwrite(d, start, enc),
            h.spec_size() + 2 * h.cell_count,
            be16_bytes(start as u16),
        ),
    )
}

/// The bytes of the packed page that holds the cells of `v`: a page of
/// zeros with its header, to which the cells were appended in order, the
/// first one at the end of the page.
#[verifier::opaque]
pub open spec fn packed_image(v: PageView) -> Seq<u8>
    decreases v.cells.len(),
{
    if v.cells.len() == 0 {
        packed_header(v).spec_write(blank())
    } else {
        let front = PageView { cells: v.cells.drop_last(), ..v };
        image_with_cell(packed_image(front), packed_header(front), spec_encode_cell(v.cells.last()))
    }
}

/// A packed page whose cells leave room for `size` bytes and a pointer
/// has that much free space.
pub proof fn lemma_packed_room(v: PageView, size: nat)
    requires
        packed_header(v).spec_size() + 2 * (v.cells.len() + 1) + cells_size(v.cells) + size
            <= PAGE_SIZE,
    ensures
        packed_header(v).spec_free_space() >= size + 2,
{
}

/// The cell at `p` is what decoding the bytes from `p` on gives.
proof fn lemma_cell_at_is(kind: CellType, d: Seq<u8>, p: int)
    ensures
        cell_at(kind, d, p) == spec_decode_cell(kind, d.skip(p)),
        cell_at(kind, d, p) is Some ==> ({
            let c = cell_at(kind, d, p).unwrap().0;
            match kind {
                CellType::Leaf => c == leaf_view(c.key, c.value),
                CellType::Interior => c == interior_view(c.key, c.left_child),
            }
        }),
{
    reveal(cell_at);
    if cell_at(kind, d, p) is Some {
        lemma_decoded_kind(kind, d.skip(p));
    }
}

/// A layout is well formed only if every slot points into the content
/// area, at a cell that decodes.
proof fn lemma_layout_needs_slot(d: Seq<u8>, h: PageHeader, i: int)
    requires
        cell_kind(h.page_type) is Some,
        0 <= i < h.cell_count,
        !(h.cell_content_start <= slot_at(d, h.spec_size() as int, i) < PAGE_SIZE) || cell_at(
            cell_kind(h.page_type).unwrap(),
            d,
            slot_at(d, h.spec_size() as int, i),
        ) is None,
    ensures
        !layout_wf(d, h),
{
    reveal(layout_wf);
}

/// A layout is well formed only if its keys ascend.
proof fn lemma_layout_needs_order(d: Seq<u8>, h: PageHeader, a: int, b: int)
    requires
        cell_kind(h.page_type) is Some,
        0 <= a < b < h.cell_count,
        !key_lt(cells_under(d, h)[a].key, cells_under(d, h)[b].key),
    ensures
        !layout_wf(d, h),
{
    reveal(layout_wf);
}

/// A layout is well formed only if its cells, and so any front part of
/// them, take no more than the content area has.
proof fn lemma_layout_needs_budget(d: Seq<u8>, h: PageHeader, k: int)
    requires
        cell_kind(h.page_type) is Some,
        0 <= k <= h.cell_count,
        cells_size(cells_under(d, h).take(k)) > PAGE_SIZE - h.cell_content_start,
    ensures
        !layout_wf(d, h),
{
    reveal(layout_wf);
    let all = cells_under(d, h);
    lemma_cells_size_subrange(all, 0, k);
    assert(all.subrange(0, k) =~= all.take(k));
}

/// Changes below the header's end leave a tidy layout tidy.
proof fn lemma_tidy_frame(d: Seq<u8>, e: Seq<u8>, h: PageHeader)
    requires
        layout_wf(d, h),
        layout_tidy(d, h),
        e.len() == d.len(),
        forall|j: int| h.spec_size() <= j < d.len() ==> e[j] == d[j],
    ensures
        layout_tidy(e, h),
{
    lemma_layout_frame(d, e, h);
    reveal(layout_tidy);
    reveal(layout_wf);
    reveal(slot_at);
    let hs = h.spec_size() as int;
    match cell_kind(h.page_type) {
        Some(kind) => {
            assert forall|i: int| 0 <= i < h.cell_count implies extent_start(e, h, i)
                == extent_start(d, h, i)
                    && #[trigger] extent_len(e, h, i) == extent_len(d, h, i) by {
                let p = slot_at(d, hs, i);
                assert(h.cell_content_start <= p < PAGE_SIZE);
                lemma_cell_at_frame(kind, d, e, p);
            }
            assert forall|i: int, j: int|
                0 <= i < h.cell_count && 0 <= j < h.cell_count
                    && i != j implies #[trigger] extent_start(
                e,
                h,
                i,
            ) + extent_len(e, h, i) <= #[trigger] extent_start(e, h, j) || extent_start(e, h, j)
                + extent_len(e, h, j) <= extent_start(e, h, i) by {
                assert(extent_len(e, h, i) == extent_len(d, h, i));
                assert(extent_len(e, h, j) == extent_len(d, h, j));
                assert(extent_start(d, h, i) + extent_len(d, h, i) <= extent_start(d, h, j)
                    || extent_start(d, h, j) + extent_len(d, h, j) <= extent_start(d, h, i));
            }
        },
        None => {},
    }
}

/// Writing a header over the start of a tidy page leaves a tidy image.
proof fn lemma_header_sync_tidy(d: Seq<u8>, h: PageHeader)
    requires
        layout_wf(d, h),
        layout_tidy(d, h),
    ensures
        image_tidy(h.spec_write(d)),
{
    lemma_header_sync(d, h);
    lemma_tidy_frame(d, h.spec_write(d), h);
}

/// A tidy layout stays tidy under a header that differs in the child
/// pointer only.
proof fn lemma_tidy_child(d: Seq<u8>, h: PageHeader, child: u32)
    requires
        layout_tidy(d, h),
    ensures
        layout_tidy(d, PageHeader { right_child: child, ..h }),
{
    reveal(layout_tidy);
    let g = PageHeader { right_child: child, ..h };
    assert(cells_under(d, g) =~= cells_under(d, h));
    assert forall|i: int| 0 <= i < g.cell_count implies #[trigger] extent_len(d, g, i)
        == extent_len(d, h, i) && extent_start(d, g, i) == extent_start(d, h, i) by {}
    if cell_kind(h.page_type) is Some {
        assert forall|i: int, j: int|
            0 <= i < g.cell_count && 0 <= j < g.cell_count
                && i != j implies #[trigger] extent_start(
            d,
            g,
            i,
        ) + extent_len(d, g, i) <= #[trigger] extent_start(d, g, j) || extent_start(d, g, j)
            + extent_len(d, g, j) <= extent_start(d, g, i) by {
            assert(extent_len(d, g, i) == extent_len(d, h, i));
            assert(extent_len(d, g, j) == extent_len(d, h, j));
            assert(extent_start(d, h, i) + extent_len(d, h, i) <= extent_start(d, h, j)
                || extent_start(d, h, j) + extent_len(d, h, j) <= extent_start(d, h, i));
        }
    }
}

/// A tidy page stays tidy when a cell goes in: the new cell lies below
/// the old content, and what the content area gains the cells take.
proof fn lemma_insert_tidy(d0: Seq<u8>, h0: PageHeader, d3: Seq<u8>, c: CellView, pos: int)
    requires
        layout_wf(d0, h0),
        layout_tidy(d0, h0),
        cell_kind(h0.page_type) == Some(c.cell_type),
        d3.len() == PAGE_SIZE,
        0 <= pos <= h0.cell_count,
        h0.spec_cell_pointer_array_end() + 2 + spec_encode_cell(c).len() <= h0.cell_content_start,
        forall|j: int| h0.cell_content_start <= j < PAGE_SIZE ==> d3[j] == d0[j],
        cell_at(c.cell_type, d3, h0.cell_content_start - spec_encode_cell(c).len()) == Some(
            (c, spec_encode_cell(c).len()),
        ),
        forall|j: int|
            0 <= j < pos ==> slot_at(d3, h0.spec_size() as int, j) == slot_at(
                d0,
                h0.spec_size() as int,
                j,
            ),
        slot_at(d3, h0.spec_size() as int, pos) == h0.cell_content_start - spec_encode_cell(
            c,
        ).len(),
        forall|j: int|
            pos < j <= h0.cell_count ==> slot_at(d3, h0.spec_size() as int, j) == slot_at(
                d0,
                h0.spec_size() as int,
                j - 1,
            ),
        cells_under(
            d3,
            PageHeader {
                cell_count: (h0.cell_count + 1) as u16,
                cell_content_start: (h0.cell_content_start - spec_encode_cell(c).len()) as u16,
                ..h0
            },
        ) == cells_under(d0, h0).insert(pos, c),
    ensures
        layout_tidy(
            d3,
            PageHeader {
                cell_count: (h0.cell_count + 1) as u16,
                cell_content_start: (h0.cell_content_start - spec_encode_cell(c).len()) as u16,
                ..h0
            },
        ),
{
    reveal(layout_tidy);
    reveal(layout_wf);
    let kind = c.cell_type;
    let size = spec_encode_cell(c).len();
    let new_start = h0.cell_content_start - size;
    let hs = h0.spec_size() as int;
    let h1 = PageHeader {
        cell_count: (h0.cell_count + 1) as u16,
        cell_content_start: new_start as u16,
        ..h0
    };
    let old_cells = cells_under(d0, h0);
    let new_cells = cells_under(d3, h1);
    assert forall|j: int| 0 <= j < h1.cell_count implies {
        &&& extent_start(d3, h1, j) == (if j == pos {
            new_start
        } else {
            extent_start(d0, h0, if j < pos { j } else { j - 1 })
        })
        &&& #[trigger] extent_len(d3, h1, j) == (if j == pos {
            size
        } else {
            extent_len(d0, h0, if j < pos { j } else { j - 1 })
        })
        &&& j != pos ==> h0.cell_content_start <= extent_start(d3, h1, j)
        &&& extent_len(d3, h1, j) == spec_encode_cell(new_cells[j]).len()
    } by {
        if j != pos {
            let src = if j < pos { j } else { j - 1 };
            let p = slot_at(d0, hs, src);
            assert(h0.cell_content_start <= p < PAGE_SIZE);
            lemma_cell_at_frame(kind, d3, d0, p);
            assert(extent_len(d0, h0, src) == spec_encode_cell(old_cells[src]).len());
            assert(new_cells[j] == old_cells[src]);
        } else {
            assert(new_cells[j] == c);
        }
    }
    assert forall|i: int, j: int|
        0 <= i < h1.cell_count && 0 <= j < h1.cell_count && i != j implies #[trigger] extent_start(
        d3,
        h1,
        i,
    ) + extent_len(d3, h1, i) <= #[trigger] extent_start(d3, h1, j) || extent_start(d3, h1, j)
        + extent_len(d3, h1, j) <= extent_start(d3, h1, i) by {
        assert(extent_len(d3, h1, i) >= 0 && extent_len(d3, h1, j) >= 0);
        if i != pos && j != pos {
            let si = if i < pos { i } else { i - 1 };
            let sj = if j < pos { j } else { j - 1 };
            assert(extent_start(d0, h0, si) + extent_len(d0, h0, si) <= extent_start(d0, h0, sj)
                || extent_start(d0, h0, sj) + extent_len(d0, h0, sj) <= extent_start(d0, h0, si));
        }
    }
    lemma_cells_size_insert(old_cells, pos, c);
}

/// A tidy page stays tidy when a cell goes: its bytes count as
/// fragmented from then on.
proof fn lemma_delete_tidy(d0: Seq<u8>, h0: PageHeader, d1: Seq<u8>, idx: int, frag: u8)
    requires
        layout_wf(d0, h0),
        layout_tidy(d0, h0),
        0 <= idx < h0.cell_count,
        d1.len() == PAGE_SIZE,
        forall|j: int| h0.spec_cell_pointer_array_end() <= j < PAGE_SIZE ==> d1[j] == d0[j],
        forall|j: int|
            0 <= j < idx ==> slot_at(d1, h0.spec_size() as int, j) == slot_at(
                d0,
                h0.spec_size() as int,
                j,
            ),
        forall|j: int|
            idx <= j < h0.cell_count - 1 ==> slot_at(d1, h0.spec_size() as int, j) == slot_at(
                d0,
                h0.spec_size() as int,
                j + 1,
            ),
        cells_under(
            d1,
            PageHeader { cell_count: (h0.cell_count - 1) as u16, fragmented_bytes: frag, ..h0 },
        ) == cells_under(d0, h0).remove(idx),
        frag == fragmented_count(
            h0.fragmented_bytes + spec_encode_cell(cells_under(d0, h0)[idx]).len(),
        ),
    ensures
        layout_tidy(
            d1,
            PageHeader { cell_count: (h0.cell_count - 1) as u16, fragmented_bytes: frag, ..h0 },
        ),
{
    reveal(layout_tidy);
    reveal(layout_wf);
    let hs = h0.spec_size() as int;
    let h1 = PageHeader { cell_count: (h0.cell_count - 1) as u16, fragmented_bytes: frag, ..h0 };
    let kind = cell_kind(h0.page_type).unwrap();
    let old_cells = cells_under(d0, h0);
    let new_cells = cells_under(d1, h1);
    assert forall|j: int| 0 <= j < h1.cell_count implies {
        &&& extent_start(d1, h1, j) == extent_start(d0, h0, if j < idx { j } else { j + 1 })
        &&& #[trigger] extent_len(d1, h1, j) == extent_len(d0, h0, if j < idx { j } else { j + 1 })
        &&& extent_len(d1, h1, j) == spec_encode_cell(new_cells[j]).len()
    } by {
        let src = if j < idx { j } else { j + 1 };
        let p = slot_at(d0, hs, src);
        assert(h0.cell_content_start <= p < PAGE_SIZE);
        lemma_cell_at_frame(kind, d1, d0, p);
        assert(extent_len(d0, h0, src) == spec_encode_cell(old_cells[src]).len());
        assert(new_cells[j] == old_cells[src]);
    }
    assert forall|i: int, j: int|
        0 <= i < h1.cell_count && 0 <= j < h1.cell_count && i != j implies #[trigger] extent_start(
        d1,
        h1,
        i,
    ) + extent_len(d1, h1, i) <= #[trigger] extent_start(d1, h1, j) || extent_start(d1, h1, j)
        + extent_len(d1, h1, j) <= extent_start(d1, h1, i) by {
        let si = if i < idx { i } else { i + 1 };
        let sj = if j < idx { j } else { j + 1 };
        assert(extent_len(d1, h1, i) == extent_len(d0, h0, si));
        assert(extent_len(d1, h1, j) == extent_len(d0, h0, sj));
        assert(extent_start(d0, h0, si) + extent_len(d0, h0, si) <= extent_start(d0, h0, sj)
            || extent_start(d0, h0, sj) + extent_len(d0, h0, sj) <= extent_start(d0, h0, si));
    }
    lemma_cells_size_remove(old_cells, idx);
}

/// A slotted page providing cell-based storage.
pub struct SlottedPage {
    /// The raw page data.
    data: Vec<u8>,
    /// Cached header, kept in step with the data.
    header: PageHeader,
}

impl View for SlottedPage {
    type V = PageView;

    open spec fn view(&self) -> PageView {
        view_of_image(self.image())
    }
}

impl SlottedPage {
    /// The bytes of the page.
    pub closed spec fn image(&self) -> Seq<u8> {
        self.data@
    }

    /// The header of the page.
    pub closed spec fn spec_header(&self) -> PageHeader {
        self.header
    }

    /// The page is well formed: its bytes are the image of a page, and the
    /// cached header is the one they hold.
    pub closed spec fn wf(&self) -> bool {
        &&& image_wf(self.data@)
        &&& PageHeader::spec_read(self.data@) == Some(self.header)
    }

    /// The content of the page is laid out tidily: every cell takes the
    /// bytes of its encoding, no two cells share a byte, and the header
    /// counts as fragmented what the content area holds beside the
    /// cells.
    pub closed spec fn tidy(&self) -> bool {
        image_tidy(self.data@)
    }

    /// In a tidy page the start of the content, the bytes of the cells
    /// and the fragmented bytes add up to the page size, as far as the
    /// header can count the fragmented bytes.
    pub proof fn lemma_tidy(&self)
        requires
            self.wf(),
        ensures
            self.tidy() == image_tidy(self.image()),
            self.tidy() && cell_kind(self@.page_type) is Some
                ==> self.spec_header().fragmented_bytes == fragmented_count(
                PAGE_SIZE - self.spec_header().cell_content_start - cells_size(self@.cells),
            ),
            self.tidy() && cell_kind(self@.page_type) is Some && self.spec_header().fragmented_bytes
                < 255 ==> self.spec_header().cell_content_start + cells_size(self@.cells)
                == PAGE_SIZE - self.spec_header().fragmented_bytes,
    {
        reveal(layout_tidy);
        reveal(layout_wf);
    }

    /// Bytes free for a new cell, once the two bytes of its pointer are
    /// set aside.
    pub open spec fn spec_free_space(&self) -> usize {
        if self.spec_header().spec_free_space() >= 2 {
            (self.spec_header().spec_free_space() - 2) as usize
        } else {
            0
        }
    }

    /// The model of a well-formed page follows from its image, and is
    /// well formed.
    pub proof fn lemma_wf(&self)
        requires
            self.wf(),
        ensures
            image_wf(self.image()),
            PageHeader::spec_read(self.image()) == Some(self.spec_header()),
            self@ == view_of_image(self.image()),
            view_wf(self@),
            self@.page_type == self.spec_header().page_type,
            self@.right_child == PageId(self.spec_header().right_child),
            self@.cells.len() == self.spec_header().cell_count,
            self.spec_header().spec_cell_pointer_array_end() <= self.spec_header().cell_content_start
                <= PAGE_SIZE || cell_kind(self@.page_type) is None,
            forall|i: int|
                0 <= i < self@.cells.len() ==> (#[trigger] self@.cells[i]).key.len()
                    + self@.cells[i].value.len() <= PAGE_SIZE,
            cell_kind(self@.page_type) is Some ==> cells_size(self@.cells) <= PAGE_SIZE
                - self.spec_header().cell_content_start,
    {
        reveal(layout_wf);
        lemma_image_view_wf(self.data@);
    }

    /// A fresh page for the header `header`, which holds no cell.
    fn fresh(header: PageHeader) -> (r: Self)
        requires
            header.cell_count == 0,
            header.cell_content_start == PAGE_SIZE,
            header.fragmented_bytes == 0,
            header.stored() == header,
        ensures
            r.wf(),
            r.tidy(),
            r.spec_header() == header,
            r.image() == header.spec_write(blank()),
            r@.cells == Seq::<CellView>::empty(),
            r@.page_type == header.page_type,
            r@.right_child == PageId(header.right_child),
    {
        let mut data: Vec<u8> = vec![0u8; PAGE_SIZE];
        let ghost zero = data@;
        header.write(data.as_mut_slice());
        proof {
            assert(zero =~= blank());
            reveal(layout_wf);
            assert(cells_under(zero, header) =~= Seq::<CellView>::empty());
            assert(cells_size(Seq::<CellView>::empty()) == 0);
            assert(layout_wf(zero, header));
            lemma_header_sync(zero, header);
            assert(layout_tidy(zero, header)) by {
                reveal(layout_tidy);
            }
            lemma_header_sync_tidy(zero, header);
        }
        SlottedPage { data, header }
    }

    /// Create a new empty leaf page.
    pub fn new_leaf() -> (r: Self)
        ensures
            r.wf(),
            r.tidy(),
            r@.page_type == PageType::LeafTable,
            r@.right_child == PageId(0),
            r@.cells == Seq::<CellView>::empty(),
            r.image() == packed_image(r@),
            r.spec_header() == (PageHeader {
                page_type: PageType::LeafTable,
                first_freeblock: 0,
                cell_count: 0,
                cell_content_start: PAGE_SIZE as u16,
                fragmented_bytes: 0,
                right_child: 0,
            }),
    {
        proof {
            reveal(packed_image);
        }
        SlottedPage::fresh(PageHeader::new_leaf())
    }

    /// Create a new empty interior page.
    pub fn new_interior() -> (r: Self)
        ensures
            r.wf(),
            r.tidy(),
            r@.page_type == PageType::InteriorTable,
            r@.right_child == PageId(0),
            r@.cells == Seq::<CellView>::empty(),
            r.image() == packed_image(r@),
            r.spec_header() == (PageHeader {
                page_type: PageType::InteriorTable,
                first_freeblock: 0,
                cell_count: 0,
                cell_content_start: PAGE_SIZE as u16,
                fragmented_bytes: 0,
                right_child: 0,
            }),
    {
        proof {
            reveal(packed_image);
        }
        SlottedPage::fresh(PageHeader::new_interior())
    }

    /// Whether the bytes of this page are laid out as its header says.
    fn validate(&self) -> (r: bool)
        requires
            self.data@.len() == PAGE_SIZE,
            self.header.stored() == self.header,
        ensures
            r == layout_wf(self.data@, self.header),
    {
        let d = Ghost(self.data@);
        let h = Ghost(self.header);
        let leaf = self.header.page_type.is_leaf();
        if !leaf && !self.header.page_type.is_interior() {
            proof {
                reveal(layout_wf);
            }
            return self.header.cell_count == 0;
        }
        let ghost kind = cell_kind(h@.page_type).unwrap();
        let hs = self.header.size();
        let count: usize = self.header.cell_count as usize;
        let content_start: usize = self.header.cell_content_start as usize;
        if content_start > PAGE_SIZE || hs + 2 * count > content_start {
            proof {
                reveal(layout_wf);
            }
            return false;
        }
        let budget: usize = PAGE_SIZE - content_start;
        let ghost all = cells_under(d@, h@);
        let mut total: usize = 0;
        let mut prev: Vec<u8> = Vec::new();
        let mut i: usize = 0;
        proof {
            assert(all.take(0) =~= Seq::<CellView>::empty());
        }
        while i < count
            invariant
                i <= count,
                d@ == self.data@,
                h@ == self.header,
                d@.len() == PAGE_SIZE,
                count == h@.cell_count,
                hs == h@.spec_size(),
                content_start == h@.cell_content_start,
                hs + 2 * count <= content_start <= PAGE_SIZE,
                budget == PAGE_SIZE - content_start,
                cell_kind(h@.page_type) == Some(kind),
                leaf == h@.page_type.spec_is_leaf(),
                all == cells_under(d@, h@),
                forall|j: int|
                    0 <= j < i ==> content_start <= #[trigger] slot_at(d@, hs as int, j)
                        < PAGE_SIZE,
                forall|j: int|
                    0 <= j < i
                        ==> (#[trigger] cell_at(kind, d@, slot_at(d@, hs as int, j))) is Some,
                forall|a: int, b: int|
                    0 <= a < b < i ==> key_lt(#[trigger] all[a].key, #[trigger] all[b].key),
                i > 0 ==> prev@ == all[i - 1].key,
                total == cells_size(all.take(i as int)),
                total <= budget,
            decreases count - i,
        {
            let p: usize = self.cell_pointer(i) as usize;
            if p < content_start || p >= PAGE_SIZE {
                proof {
                    lemma_layout_needs_slot(d@, h@, i as int);
                }
                return false;
            }
            let bytes = slice_subrange(self.data.as_slice(), p, PAGE_SIZE);
            proof {
                assert(bytes@ =~= d@.skip(p as int));
                lemma_cell_at_is(kind, d@, p as int);
            }
            let decoded = if leaf {
                Cell::decode_leaf(bytes)
            } else {
                Cell::decode_interior(bytes)
            };
            let cell = match decoded {
                Some(found) => found.0,
                None => {
                    proof {
                        lemma_layout_needs_slot(d@, h@, i as int);
                    }
                    return false;
                },
            };
            assert(all[i as int] == cell@);
            if i > 0 {
                match compare_keys(prev.as_slice(), cell.key.as_slice()) {
                    KeyOrder::Less => {},
                    _ => {
                        proof {
                            lemma_layout_needs_order(d@, h@, i - 1, i as int);
                        }
                        return false;
                    },
                }
            }
            let size = cell.encoded_size();
            proof {
                assert(all.take(i + 1) =~= all.take(i as int).insert(i as int, all[i as int]));
                lemma_cells_size_insert(all.take(i as int), i as int, all[i as int]);
            }
            if size > budget - total {
                proof {
                    lemma_layout_needs_budget(d@, h@, i + 1);
                }
                return false;
            }
            total = total + size;
            proof {
                assert forall|a: int, b: int| 0 <= a < b < i + 1 implies key_lt(
                    #[trigger] all[a].key,
                    #[trigger] all[b].key,
                ) by {
                    if b == i && a < i - 1 {
                        lemma_key_lt_transitive(all[a].key, all[i - 1].key, all[i as int].key);
                    }
                }
            }
            prev = cell.key;
            i += 1;
        }
        proof {
            assert(all.take(count as int) =~= all);
            reveal(layout_wf);
        }
        true
    }

    /// Load a page from raw bytes: the first `PAGE_SIZE` bytes, with zeros
    /// where they are missing.
    ///
    /// A header whose tag names no page kind is an invalid page. Bytes
    /// that are not laid out as their header says are corruption: a
    /// pointer outside the content area, a cell that does not decode, keys
    /// out of order, or cells that take more than the content area has.
    pub fn from_bytes(bytes: &[u8]) -> (r: Result<Self, StorageError>)
        ensures
            match r {
                Ok(page) => page.wf() && page.image() == PageBuf::spec_from_bytes(bytes@),
                Err(StorageError::InvalidPage(_)) => PageHeader::spec_read(
                    PageBuf::spec_from_bytes(bytes@),
                ) is None,
                Err(StorageError::Corruption(_)) => PageHeader::spec_read(
                    PageBuf::spec_from_bytes(bytes@),
                ) is Some && !image_wf(PageBuf::spec_from_bytes(bytes@)),
                Err(_) => false,
            },
    {
        let data = PageBuf::from_bytes(bytes).into_vec();
        let header = match PageHeader::read(data.as_slice()) {
            Some(header) => header,
            None => {
                return Err(StorageError::invalid_page("invalid page header"));
            },
        };
        let page = SlottedPage { data, header };
        proof {
            reveal(layout_wf);
        }
        if page.validate() {
            Ok(page)
        } else {
            Err(StorageError::corruption("page layout does not match its header"))
        }
    }

    /// Get the raw bytes of this page.
    pub fn as_bytes(&self) -> (r: &[u8])
        requires
            self.wf(),
        ensures
            r@ == self.image(),
            r@.len() == PAGE_SIZE,
    {
        self.data.as_slice()
    }

    /// Get the page header.
    pub fn header(&self) -> (r: &PageHeader)
        ensures
            *r == self.spec_header(),
    {
        &self.header
    }

    /// Get the number of cells in this page.
    pub fn cell_count(&self) -> (r: usize)
        requires
            self.wf(),
        ensures
            r == self@.cells.len(),
    {
        proof {
            self.lemma_wf();
        }
        self.header.cell_count as usize
    }

    /// Check if this is a leaf page.
    pub fn is_leaf(&self) -> (r: bool)
        requires
            self.wf(),
        ensures
            r == self@.page_type.spec_is_leaf(),
    {
        self.header.page_type.is_leaf()
    }

    /// Check if this is an interior page.
    pub fn is_interior(&self) -> (r: bool)
        requires
            self.wf(),
        ensures
            r == self@.page_type.spec_is_interior(),
    {
        self.header.page_type.is_interior()
    }

    /// Get the page type.
    pub fn page_type(&self) -> (r: PageType)
        requires
            self.wf(),
        ensures
            r == self@.page_type,
    {
        self.header.page_type
    }

    /// Get the child pointer of the header (for interior pages): the
    /// subtree of the keys below the first separator.
    pub fn right_child(&self) -> (r: PageId)
        requires
            self.wf(),
        ensures
            r == self@.right_child,
    {
        PageId::new(self.header.right_child)
    }

    /// Calculate free space available for new cells: what lies between the
    /// pointer array and the content, less the two bytes that the pointer
    /// of a new cell takes.
    pub fn free_space(&self) -> (r: usize)
        ensures
            r == self.spec_free_space(),
    {
        let gap = self.header.free_space();
        if gap >= 2 {
            gap - 2
        } else {
            0
        }
    }

    /// Check if a cell of the given size can fit.
    pub fn can_fit(&self, cell_size: usize) -> (r: bool)
        ensures
            r == (self.spec_free_space() >= cell_size),
    {
        self.free_space() >= cell_size
    }

    /// The cell in slot `index` and the number of bytes it takes in the page.
    fn cell(&self, index: usize) -> (r: (Cell, usize))
        requires
            self.wf(),
            index < self@.cells.len(),
        ensures
            r.0@ == self@.cells[index as int],
            r.0.key@.len() + r.0.value@.len() <= PAGE_SIZE,
            cell_kind(self@.page_type) == Some(r.0.cell_type),
    {
        let hs = self.header.size();
        proof {
            reveal(layout_wf);
        }
        let p: usize = read_u16_be(self.data.as_slice(), hs + 2 * index) as usize;
        proof {
            reveal(slot_at);
            reveal(cell_at);
            assert(p == slot_at(self.data@, hs as int, index as int));
            let kind = cell_kind(self.header.page_type).unwrap();
            assert(cell_at(kind, self.data@, p as int) is Some);
            lemma_decoded_kind(kind, self.data@.skip(p as int));
        }
        let bytes = slice_subrange(self.data.as_slice(), p, PAGE_SIZE);
        assert(bytes@ =~= self.data@.skip(p as int));
        let decoded = if self.header.page_type.is_leaf() {
            Cell::decode_leaf(bytes)
        } else {
            Cell::decode_interior(bytes)
        };
        match decoded {
            Some(found) => found,
            None => {
                assert(false);
                (Cell::new_leaf(Vec::new(), Vec::new()), 0)
            },
        }
    }

    /// Get the cell at the given index.
    pub fn get_cell(&self, index: usize) -> (r: Result<Cell, StorageError>)
        requires
            self.wf(),
        ensures
            match r {
                Ok(cell) => index < self@.cells.len() && cell@ == self@.cells[index as int]
                    && cell_kind(self@.page_type) == Some(cell.cell_type) && cell.key@.len()
                    + cell.value@.len() <= PAGE_SIZE,
                Err(StorageError::InvalidOperation(text)) => index >= self@.cells.len() && text@
                    == with_number(
                    with_number("cell index "@, index as nat, " out of bounds (count: "@),
                    self@.cells.len(),
                    ")"@,
                ),
                Err(_) => false,
            },
    {
        let count = self.cell_count();
        if index >= count {
            proof {
                self.lemma_wf();
            }
            let start = numbered("cell index ", index, " out of bounds (count: ");
            let text = numbered(start.as_str(), count, ")");
            return Err(StorageError::invalid_operation(text.as_str()));
        }
        Ok(self.cell(index).0)
    }

    /// Get all cells in this page, in key order.
    pub fn get_all_cells(&self) -> (r: Result<Vec<Cell>, StorageError>)
        requires
            self.wf(),
        ensures
            match r {
                Ok(cells) => cells@.len() == self@.cells.len() && forall|i: int|
                    0 <= i < cells@.len() ==> (#[trigger] cells@[i])@ == self@.cells[i]
                        && cell_kind(self@.page_type) == Some(cells@[i].cell_type)
                        && cells@[i].key@.len() + cells@[i].value@.len() <= PAGE_SIZE,
                Err(_) => false,
            },
    {
        let count = self.cell_count();
        let mut cells: Vec<Cell> = Vec::new();
        let mut i: usize = 0;
        while i < count
            invariant
                self.wf(),
                count == self@.cells.len(),
                i <= count,
                cells@.len() == i,
                forall|j: int|
                    0 <= j < i ==> (#[trigger] cells@[j])@ == self@.cells[j] && cell_kind(
                        self@.page_type,
                    ) == Some(cells@[j].cell_type) && cells@[j].key@.len() + cells@[j].value@.len()
                        <= PAGE_SIZE,
            decreases count - i,
        {
            let found = self.cell(i);
            cells.push(found.0);
            i += 1;
        }
        Ok(cells)
    }

    /// Binary search for `key`: whether a cell holds it, and the slot of
    /// that cell or, failing that, the slot where a cell of that key
    /// belongs.
    fn locate(&self, key: &[u8]) -> (r: (bool, usize))
        requires
            self.wf(),
        ensures
            r.1 <= self@.cells.len(),
            r.0 ==> r.1 < self@.cells.len() && self@.cells[r.1 as int].key == key@,
            !r.0 ==> forall|i: int| 0 <= i < r.1 ==> key_lt(#[trigger] self@.cells[i].key, key@),
            !r.0 ==> forall|i: int|
                r.1 <= i < self@.cells.len() ==> key_lt(key@, #[trigger] self@.cells[i].key),
    {
        proof {
            self.lemma_wf();
        }
        let mut low: usize = 0;
        let mut high: usize = self.cell_count();
        while low < high
            invariant
                self.wf(),
                keys_sorted(self@.cells),
                low <= high <= self@.cells.len(),
                forall|i: int| 0 <= i < low ==> key_lt(#[trigger] self@.cells[i].key, key@),
                forall|i: int|
                    high <= i < self@.cells.len() ==> key_lt(key@, #[trigger] self@.cells[i].key),
            decreases high - low,
        {
            let mid = low + (high - low) / 2;
            let found = self.cell(mid);
            let ghost mid_key = self@.cells[mid as int].key;
            match compare_keys(key, found.0.key.as_slice()) {
                KeyOrder::Less => {
                    assert forall|i: int| mid <= i < self@.cells.len() implies key_lt(
                        key@,
                        #[trigger] self@.cells[i].key,
                    ) by {
                        if i > mid {
                            assert(key_lt(self@.cells[mid as int].key, self@.cells[i].key));
                            lemma_key_lt_transitive(key@, mid_key, self@.cells[i].key);
                        }
                    }
                    high = mid;
                },
                KeyOrder::Greater => {
                    assert forall|i: int| 0 <= i < mid + 1 implies key_lt(
                        #[trigger] self@.cells[i].key,
                        key@,
                    ) by {
                        if i < mid {
                            assert(key_lt(self@.cells[i].key, self@.cells[mid as int].key));
                            lemma_key_lt_transitive(self@.cells[i].key, mid_key, key@);
                        }
                    }
                    low = mid + 1;
                },
                KeyOrder::Equal => {
                    return (true, mid);
                },
            }
        }
        (false, low)
    }

    /// Find the position where a key should be inserted: the slot of the
    /// cell that holds it, or the slot before which it belongs.
    fn find_insert_position(&self, key: &[u8]) -> (r: Result<usize, StorageError>)
        requires
            self.wf(),
        ensures
            match r {
                Ok(pos) => pos <= self@.cells.len() && (forall|i: int|
                    0 <= i < pos ==> key_lt(#[trigger] self@.cells[i].key, key@)) && (forall|
                    i: int,
                |
                    pos < i < self@.cells.len() ==> key_lt(key@, #[trigger] self@.cells[i].key))
                    && (pos < self@.cells.len() ==> key_le(key@, self@.cells[pos as int].key)),
                Err(_) => false,
            },
    {
        let (found, pos) = self.locate(key);
        proof {
            self.lemma_wf();
            if found {
                assert forall|i: int| 0 <= i < pos implies key_lt(
                    #[trigger] self@.cells[i].key,
                    key@,
                ) by {
                    assert(key_lt(self@.cells[i].key, self@.cells[pos as int].key));
                }
                assert forall|i: int| pos < i < self@.cells.len() implies key_lt(
                    key@,
                    #[trigger] self@.cells[i].key,
                ) by {
                    assert(key_lt(self@.cells[pos as int].key, self@.cells[i].key));
                }
            }
        }
        Ok(pos)
    }

    /// Search for a key and return its index, or None if not found.
    pub fn search(&self, key: &[u8]) -> (r: Result<Option<usize>, StorageError>)
        requires
            self.wf(),
        ensures
            match r {
                Ok(Some(i)) => i < self@.cells.len() && self@.cells[i as int].key == key@,
                Ok(None) => forall|i: int|
                    0 <= i < self@.cells.len() ==> (#[trigger] self@.cells[i]).key != key@,
                Err(_) => false,
            },
    {
        let (found, pos) = self.locate(key);
        if found {
            Ok(Some(pos))
        } else {
            proof {
                assert forall|i: int| 0 <= i < self@.cells.len() implies (
                #[trigger] self@.cells[i]).key != key@ by {
                    lemma_key_trichotomy(self@.cells[i].key, key@);
                }
            }
            Ok(None)
        }
    }

    /// Find the child page for a given key (for interior pages).
    ///
    /// The header's child pointer covers the keys below the first
    /// separator; the child of a cell covers the keys from its separator
    /// up to the next. With separators `[10, 20, 30]`:
    ///
    /// - header child: keys below 10
    /// - cell 0: keys from 10, below 20
    /// - cell 1: keys from 20, below 30
    /// - cell 2: keys from 30
    pub fn find_child(&self, key: &[u8]) -> (r: Result<PageId, StorageError>)
        requires
            self.wf(),
        ensures
            match r {
                Ok(child) => self@.page_type.spec_is_interior() && child == child_for(
                    self@,
                    key@,
                ),
                Err(StorageError::InvalidOperation(_)) => !self@.page_type.spec_is_interior(),
                Err(_) => false,
            },
    {
        if !self.is_interior() {
            return Err(StorageError::invalid_operation("find_child called on leaf page"));
        }
        proof {
            self.lemma_wf();
        }
        let cell_count = self.cell_count();
        if cell_count == 0 {
            return Ok(self.right_child());
        }
        let first_cell = self.cell(0);
        match compare_keys(key, first_cell.0.key.as_slice()) {
            KeyOrder::Less => {
                proof {
                    assert forall|i: int| 0 <= i < self@.cells.len() implies key_lt(
                        key@,
                        #[trigger] self@.cells[i].key,
                    ) by {
                        if i > 0 {
                            assert(key_lt(self@.cells[0].key, self@.cells[i].key));
                            lemma_key_lt_transitive(key@, self@.cells[0].key, self@.cells[i].key);
                        }
                    }
                    lemma_child_slot_is(self@.cells, key@, 0);
                }
                return Ok(self.right_child());
            },
            _ => {},
        }
        proof {
            lemma_key_trichotomy(key@, self@.cells[0].key);
        }
        let mut low: usize = 1;
        let mut high: usize = cell_count;
        while low < high
            invariant
                self.wf(),
                keys_sorted(self@.cells),
                1 <= low <= high <= self@.cells.len(),
                forall|i: int| 0 <= i < low ==> key_le(#[trigger] self@.cells[i].key, key@),
                forall|i: int|
                    high <= i < self@.cells.len() ==> key_lt(key@, #[trigger] self@.cells[i].key),
            decreases high - low,
        {
            let mid = low + (high - low) / 2;
            let found = self.cell(mid);
            let ghost mid_key = self@.cells[mid as int].key;
            match compare_keys(key, found.0.key.as_slice()) {
                KeyOrder::Less => {
                    assert forall|i: int| mid <= i < self@.cells.len() implies key_lt(
                        key@,
                        #[trigger] self@.cells[i].key,
                    ) by {
                        if i > mid {
                            assert(key_lt(self@.cells[mid as int].key, self@.cells[i].key));
                            lemma_key_lt_transitive(key@, mid_key, self@.cells[i].key);
                        }
                    }
                    high = mid;
                },
                _ => {
                    assert forall|i: int| 0 <= i < mid + 1 implies key_le(
                        #[trigger] self@.cells[i].key,
                        key@,
                    ) by {
                        lemma_key_trichotomy(key@, mid_key);
                        if i < mid {
                            assert(key_lt(self@.cells[i].key, self@.cells[mid as int].key));
                            if mid_key != key@ {
                                lemma_key_lt_transitive(self@.cells[i].key, mid_key, key@);
                            }
                        }
                    }
                    low = mid + 1;
                },
            }
        }
        proof {
            lemma_child_slot_is(self@.cells, key@, low as int);
        }
        Ok(self.cell(low - 1).0.left_child)
    }

    /// Set the child pointer of the header. A page that is not interior
    /// holds no such pointer and stays as it is.
    pub fn set_right_child(&mut self, page_id: PageId)
        requires
            old(self).wf(),
        ensures
            final(self).wf(),
            old(self).tidy() ==> final(self).tidy(),
            old(self)@.page_type.spec_is_interior() ==> final(self)@ == (PageView {
                right_child: page_id,
                ..old(self)@
            }) && final(self).spec_header() == (PageHeader {
                right_child: page_id.0,
                ..old(self).spec_header()
            }) && final(self).image() == final(self).spec_header().spec_write(old(self).image()),
            !old(self)@.page_type.spec_is_interior() ==> final(self).image() == old(self).image()
                && final(self).spec_header() == old(self).spec_header(),
    {
        if !self.header.page_type.is_interior() {
            return ;
        }
        let ghost d0 = self.data@;
        let ghost h0 = self.header;
        self.header.right_child = page_id.value();
        proof {
            reveal(layout_wf);
            let h1 = self.header;
            let hs = h0.spec_size() as int;
            let kind = cell_kind(h0.page_type).unwrap();
            assert(cells_under(d0, h1) =~= cells_under(d0, h0));
            assert(layout_wf(d0, h1));
            lemma_header_sync(d0, h1);
            if layout_tidy(d0, h0) {
                lemma_tidy_child(d0, h0, page_id.0);
                lemma_header_sync_tidy(d0, h1);
            }
        }
        self.sync_header();
    }

    /// Get the cell pointer at the given index.
    fn cell_pointer(&self, index: usize) -> (r: u16)
        requires
            self.data@.len() == PAGE_SIZE,
            self.header.spec_size() + 2 * index + 2 <= PAGE_SIZE,
        ensures
            r == slot_at(self.data@, self.header.spec_size() as int, index as int),
    {
        proof {
            reveal(slot_at);
        }
        let offset = self.header.cell_pointer_offset() + index * 2;
        read_u16_be(self.data.as_slice(), offset)
    }

    /// Set the cell pointer at the given index.
    fn set_cell_pointer(&mut self, index: usize, pointer: u16)
        requires
            old(self).data@.len() == PAGE_SIZE,
            old(self).header.spec_size() + 2 * index + 2 <= PAGE_SIZE,
        ensures
            final(self).header == old(self).header,
            final(self).data@ == overwrite(
                old(self).data@,
                old(self).header.spec_size() + 2 * index,
                be16_bytes(pointer),
            ),
    {
        let offset = self.header.cell_pointer_offset() + index * 2;
        write_u16_be(self.data.as_mut_slice(), offset, pointer);
    }

    /// Copy `src` into the page, starting at byte `at`.
    fn write_bytes(&mut self, at: usize, src: &[u8])
        requires
            old(self).data@.len() == PAGE_SIZE,
            at + src@.len() <= PAGE_SIZE,
        ensures
            final(self).header == old(self).header,
            final(self).data@ == overwrite(old(self).data@, at as int, src@),
    {
        let mut i: usize = 0;
        while i < src.len()
            invariant
                i <= src@.len(),
                at + src@.len() <= PAGE_SIZE,
                self.header == old(self).header,
                self.data@.len() == PAGE_SIZE,
                forall|j: int|
                    0 <= j < PAGE_SIZE && !(at <= j < at + i)
                        ==> self.data@[j] == old(self).data@[j],
                forall|j: int| 0 <= j < i ==> self.data@[at + j] == src@[j],
            decreases src@.len() - i,
        {
            self.data[at + i] = src[i];
            i += 1;
        }
        assert(self.data@ =~= overwrite(old(self).data@, at as int, src@));
    }

    /// Move the pointers of the slots from `pos` up to `count` one slot up.
    fn open_slot(&mut self, pos: usize, count: usize)
        requires
            old(self).data@.len() == PAGE_SIZE,
            pos <= count,
            old(self).header.spec_size() + 2 * (count + 1) <= PAGE_SIZE,
        ensures
            final(self).header == old(self).header,
            final(self).data@.len() == PAGE_SIZE,
            pos == count ==> final(self).data@ == old(self).data@,
            forall|j: int|
                old(self).header.spec_size() + 2 * (count + 1) <= j < PAGE_SIZE
                    ==> final(self).data@[j] == old(self).data@[j],
            forall|j: int|
                0 <= j < pos ==> slot_at(final(self).data@, old(self).header.spec_size() as int, j)
                    == slot_at(old(self).data@, old(self).header.spec_size() as int, j),
            forall|j: int|
                pos < j <= count ==> slot_at(
                    final(self).data@,
                    old(self).header.spec_size() as int,
                    j,
                ) == slot_at(old(self).data@, old(self).header.spec_size() as int, j - 1),
    {
        let ghost d0 = self.data@;
        let ghost hs = self.header.spec_size() as int;
        let mut k: usize = count;
        while k > pos
            invariant
                pos <= k <= count,
                hs == self.header.spec_size(),
                self.header == old(self).header,
                self.data@.len() == PAGE_SIZE,
                hs + 2 * (count + 1) <= PAGE_SIZE,
                k == count ==> self.data@ == d0,
                forall|j: int| hs + 2 * (count + 1) <= j < PAGE_SIZE ==> self.data@[j] == d0[j],
                forall|j: int| 0 <= j <= k ==> slot_at(self.data@, hs, j) == slot_at(d0, hs, j),
                forall|j: int| k < j <= count
                    ==> slot_at(self.data@, hs, j) == slot_at(d0, hs, j - 1),
            decreases k,
        {
            let ghost before = self.data@;
            let ptr = self.cell_pointer(k - 1);
            self.set_cell_pointer(k, ptr);
            proof {
                lemma_slot_write(before, hs, k as int, ptr);
                assert forall|j: int| 0 <= j <= k - 1 implies slot_at(self.data@, hs, j)
                    == slot_at(d0, hs, j) by {
                    assert(slot_at(self.data@, hs, j) == slot_at(before, hs, j));
                }
                assert forall|j: int| k - 1 < j <= count implies slot_at(self.data@, hs, j)
                    == slot_at(d0, hs, j - 1) by {
                    if j != k {
                        assert(slot_at(self.data@, hs, j) == slot_at(before, hs, j));
                    }
                }
            }
            k -= 1;
        }
    }

    /// Sync the header to the raw page data.
    fn sync_header(&mut self)
        requires
            old(self).data@.len() == PAGE_SIZE,
        ensures
            final(self).header == old(self).header,
            final(self).data@ == old(self).header.spec_write(old(self).data@),
    {
        let header = self.header;
        header.write(self.data.as_mut_slice());
    }

    /// Write `cell` into the content area and its pointer into slot `pos`,
    /// where its key belongs.
    fn insert_at(&mut self, cell: &Cell, insert_pos: usize, cell_size: usize)
        requires
            old(self).wf(),
            cell_kind(old(self)@.page_type) == Some(cell.cell_type),
            cell_size == spec_encode_cell(cell@).len(),
            old(self).spec_free_space() >= cell_size,
            insert_pos <= old(self)@.cells.len(),
            cell.key@.len() <= u64::MAX,
            cell.value@.len() <= u64::MAX,
            forall|i: int|
                0 <= i < insert_pos ==> key_lt(#[trigger] old(self)@.cells[i].key, cell.key@),
            forall|i: int|
                insert_pos <= i < old(self)@.cells.len() ==> key_lt(
                    cell.key@,
                    #[trigger] old(self)@.cells[i].key,
                ),
        ensures
            final(self).wf(),
            old(self).tidy() ==> final(self).tidy(),
            final(self)@ == (PageView {
                cells: old(self)@.cells.insert(insert_pos as int, cell@),
                ..old(self)@
            }),
            final(self).spec_header() == (PageHeader {
                cell_count: (old(self).spec_header().cell_count + 1) as u16,
                cell_content_start: (old(self).spec_header().cell_content_start - cell_size) as u16,
                ..old(self).spec_header()
            }),
            insert_pos == old(self)@.cells.len() ==> final(self).image() == image_with_cell(
                old(self).image(),
                old(self).spec_header(),
                spec_encode_cell(cell@),
            ),
    {
        proof {
            self.lemma_wf();
        }
        let cell_count = self.cell_count();
        let ghost d0 = self.data@;
        let ghost h0 = self.header;
        let content_start: usize = self.header.cell_content_start as usize;

        // Allocate space for the cell content and write it.
        let encoded = cell.encode();
        let new_content_start: usize = content_start - cell_size;
        self.write_bytes(new_content_start, encoded.as_slice());
        let ghost d1 = self.data@;

        // Shift cell pointers to make room, and insert the new cell pointer.
        self.open_slot(insert_pos, cell_count);
        let ghost d2 = self.data@;
        self.set_cell_pointer(insert_pos, new_content_start as u16);

        // Update header.
        self.header.cell_count = self.header.cell_count + 1;
        self.header.cell_content_start = new_content_start as u16;
        proof {
            lemma_insert_bytes(d0, h0, d1, d2, self.data@, cell@, insert_pos as int);
            lemma_header_sync(self.data@, self.header);
            if layout_tidy(d0, h0) {
                lemma_header_sync_tidy(self.data@, self.header);
            }
        }
        self.sync_header();
    }

    /// Insert a cell at the position that keeps the keys sorted.
    ///
    /// Returns the index where the cell was inserted. Fails with
    /// `PageFull` unless the content area can take the cell and the
    /// pointer array its pointer. Where a cell already holds the key,
    /// nothing is inserted and the index of that cell is returned.
    pub fn insert_cell(&mut self, cell: &Cell) -> (r: Result<usize, StorageError>)
        requires
            old(self).wf(),
            cell.key@.len() + cell.value@.len() + 22 <= usize::MAX,
        ensures
            final(self).wf(),
            old(self).tidy() ==> final(self).tidy(),
            match r {
                Ok(pos) => {
                    &&& cell_kind(old(self)@.page_type) == Some(cell.cell_type)
                    &&& old(self).spec_free_space() >= spec_encode_cell(cell@).len()
                    &&& pos <= old(self)@.cells.len()
                    &&& forall|i: int|
                        0 <= i < pos ==> key_lt(#[trigger] old(self)@.cells[i].key, cell.key@)
                    &&& forall|i: int|
                        pos < i < old(self)@.cells.len() ==> key_lt(
                            cell.key@,
                            #[trigger] old(self)@.cells[i].key,
                        )
                    &&& if pos < old(self)@.cells.len() && old(self)@.cells[pos as int].key
                        == cell.key@ {
                        &&& final(self).image() == old(self).image()
                        &&& final(self).spec_header() == old(self).spec_header()
                    } else {
                        &&& pos < old(self)@.cells.len() ==> key_lt(
                            cell.key@,
                            old(self)@.cells[pos as int].key,
                        )
                        &&& final(self)@ == (PageView {
                            cells: old(self)@.cells.insert(pos as int, cell@),
                            ..old(self)@
                        })
                        &&& final(self).spec_header() == (PageHeader {
                            cell_count: (old(self).spec_header().cell_count + 1) as u16,
                            cell_content_start: (old(self).spec_header().cell_content_start
                                - spec_encode_cell(cell@).len()) as u16,
                            ..old(self).spec_header()
                        })
                        &&& pos == old(self)@.cells.len() ==> final(self).image()
                            == image_with_cell(
                            old(self).image(),
                            old(self).spec_header(),
                            spec_encode_cell(cell@),
                        )
                    }
                },
                Err(StorageError::PageFull { page_id, needed, available }) => {
                    &&& cell_kind(old(self)@.page_type) == Some(cell.cell_type)
                    &&& old(self).spec_free_space() < spec_encode_cell(cell@).len()
                    &&& page_id == PageId(u32::MAX)
                    &&& needed == spec_encode_cell(cell@).len() + 2
                    &&& available == old(self).spec_free_space()
                    &&& final(self).image() == old(self).image()
                    &&& final(self).spec_header() == old(self).spec_header()
                },
                Err(StorageError::InvalidOperation(_)) => {
                    &&& cell_kind(old(self)@.page_type) != Some(cell.cell_type)
                    &&& final(self).image() == old(self).image()
                    &&& final(self).spec_header() == old(self).spec_header()
                },
                Err(_) => false,
            },
    {
        let kind_fits = match cell.cell_type {
            CellType::Leaf => self.header.page_type.is_leaf(),
            CellType::Interior => self.header.page_type.is_interior(),
        };
        if !kind_fits {
            return Err(
                StorageError::invalid_operation("cell kind does not match the page kind"),
            );
        }
        let cell_size = cell.encoded_size();
        if !self.can_fit(cell_size) {
            return Err(
                StorageError::PageFull {
                    page_id: PageId::invalid(),
                    needed: cell_size + 2,
                    available: self.free_space(),
                },
            );
        }
        let insert_pos = match self.find_insert_position(cell.key.as_slice()) {
            Ok(pos) => pos,
            Err(e) => {
                return Err(e);
            },
        };
        proof {
            self.lemma_wf();
        }
        let cell_count = self.cell_count();
        if insert_pos < cell_count {
            let at = self.cell(insert_pos);
            match compare_keys(cell.key.as_slice(), at.0.key.as_slice()) {
                KeyOrder::Equal => {
                    return Ok(insert_pos);
                },
                _ => {
                    proof {
                        lemma_key_trichotomy(cell.key@, at.0.key@);
                    }
                },
            }
        }
        self.insert_at(cell, insert_pos, cell_size);
        Ok(insert_pos)
    }

    /// Move the pointers of the slots above `pos`, up to `count`, one slot
    /// down.
    fn close_slot(&mut self, pos: usize, count: usize)
        requires
            old(self).data@.len() == PAGE_SIZE,
            pos < count,
            old(self).header.spec_size() + 2 * count <= PAGE_SIZE,
        ensures
            final(self).header == old(self).header,
            final(self).data@.len() == PAGE_SIZE,
            forall|j: int|
                old(self).header.spec_size() + 2 * count <= j < PAGE_SIZE ==> final(self).data@[j]
                    == old(self).data@[j],
            forall|j: int|
                0 <= j < pos ==> slot_at(final(self).data@, old(self).header.spec_size() as int, j)
                    == slot_at(old(self).data@, old(self).header.spec_size() as int, j),
            forall|j: int|
                pos <= j < count - 1 ==> slot_at(
                    final(self).data@,
                    old(self).header.spec_size() as int,
                    j,
                ) == slot_at(old(self).data@, old(self).header.spec_size() as int, j + 1),
    {
        let ghost d0 = self.data@;
        let ghost hs = self.header.spec_size() as int;
        let mut k: usize = pos;
        while k + 1 < count
            invariant
                pos <= k < count,
                hs == self.header.spec_size(),
                self.header == old(self).header,
                self.data@.len() == PAGE_SIZE,
                hs + 2 * count <= PAGE_SIZE,
                forall|j: int| hs + 2 * count <= j < PAGE_SIZE ==> self.data@[j] == d0[j],
                forall|j: int| 0 <= j < pos ==> slot_at(self.data@, hs, j) == slot_at(d0, hs, j),
                forall|j: int| pos <= j < k
                    ==> slot_at(self.data@, hs, j) == slot_at(d0, hs, j + 1),
                forall|j: int| k <= j < count ==> slot_at(self.data@, hs, j) == slot_at(d0, hs, j),
            decreases count - k,
        {
            let ghost before = self.data@;
            let ptr = self.cell_pointer(k + 1);
            self.set_cell_pointer(k, ptr);
            proof {
                lemma_slot_write(before, hs, k as int, ptr);
                assert forall|j: int| 0 <= j < pos implies slot_at(self.data@, hs, j) == slot_at(
                    d0,
                    hs,
                    j,
                ) by {
                    assert(slot_at(self.data@, hs, j) == slot_at(before, hs, j));
                }
                assert forall|j: int| pos <= j < k + 1 implies slot_at(self.data@, hs, j)
                    == slot_at(d0, hs, j + 1) by {
                    if j != k {
                        assert(slot_at(self.data@, hs, j) == slot_at(before, hs, j));
                    }
                }
                assert forall|j: int| k + 1 <= j < count implies slot_at(self.data@, hs, j)
                    == slot_at(d0, hs, j) by {
                    assert(slot_at(self.data@, hs, j) == slot_at(before, hs, j));
                }
            }
            k += 1;
        }
    }

    /// Delete the cell at the given index.
    ///
    /// The pointers above it move down one slot. The bytes of the cell
    /// stay where they are and are counted as fragmented, up to the 255
    /// that the header can count.
    pub fn delete_cell(&mut self, index: usize) -> (r: Result<Cell, StorageError>)
        requires
            old(self).wf(),
        ensures
            final(self).wf(),
            old(self).tidy() ==> final(self).tidy(),
            match r {
                Ok(cell) => {
                    &&& index < old(self)@.cells.len()
                    &&& cell@ == old(self)@.cells[index as int]
                    &&& final(self)@ == (PageView {
                        cells: old(self)@.cells.remove(index as int),
                        ..old(self)@
                    })
                    &&& final(self).spec_header() == (PageHeader {
                        cell_count: (old(self).spec_header().cell_count - 1) as u16,
                        fragmented_bytes: if old(self).spec_header().fragmented_bytes
                            + spec_encode_cell(cell@).len() > 255 {
                            255u8
                        } else {
                            (old(self).spec_header().fragmented_bytes + spec_encode_cell(
                                cell@,
                            ).len()) as u8
                        },
                        ..old(self).spec_header()
                    })
                },
                Err(StorageError::InvalidOperation(text)) => {
                    &&& index >= old(self)@.cells.len()
                    &&& text@ == with_number("delete index "@, index as nat, " out of bounds"@)
                    &&& final(self).image() == old(self).image()
                    &&& final(self).spec_header() == old(self).spec_header()
                },
                Err(_) => false,
            },
    {
        if index >= self.cell_count() {
            let text = numbered("delete index ", index, " out of bounds");
            return Err(StorageError::invalid_operation(text.as_str()));
        }
        proof {
            self.lemma_wf();
        }
        let found = self.cell(index);
        let ghost d0 = self.data@;
        let ghost h0 = self.header;

        // Shift cell pointers down.
        let cell_count = self.cell_count();
        self.close_slot(index, cell_count);

        // Update header. The cell content is not reclaimed here.
        self.header.cell_count = self.header.cell_count - 1;
        let size = found.0.encoded_size();
        let fragmented: usize = self.header.fragmented_bytes as usize;
        self.header.fragmented_bytes = if fragmented + size > 255 {
            255
        } else {
            (fragmented + size) as u8
        };
        proof {
            lemma_delete_layout(d0, h0, self.data@, index as int, self.header.fragmented_bytes);
            lemma_header_sync(self.data@, self.header);
            if layout_tidy(d0, h0) {
                lemma_delete_tidy(d0, h0, self.data@, index as int, self.header.fragmented_bytes);
                lemma_header_sync_tidy(self.data@, self.header);
            }
        }
        self.sync_header();
        Ok(found.0)
    }

    /// Update the value of the leaf cell at the given index: the cell is
    /// deleted and a cell of the same key and the new value inserted.
    ///
    /// Fails with `PageFull`, and leaves the page as it is, where the new
    /// cell would not fit once the old pointer is gone.
    pub fn update_cell(&mut self, index: usize, new_value: &[u8]) -> (r: Result<
        (),
        StorageError,
    >)
        requires
            old(self).wf(),
            new_value@.len() + PAGE_SIZE + 22 <= usize::MAX,
        ensures
            final(self).wf(),
            old(self).tidy() ==> final(self).tidy(),
            match r {
                Ok(()) => {
                    &&& old(self)@.page_type.spec_is_leaf()
                    &&& index < old(self)@.cells.len()
                    &&& old(self).spec_header().spec_free_space() >= spec_encode_cell(
                        leaf_view(old(self)@.cells[index as int].key, new_value@),
                    ).len()
                    &&& final(self)@ == (PageView {
                        cells: old(self)@.cells.update(
                            index as int,
                            leaf_view(old(self)@.cells[index as int].key, new_value@),
                        ),
                        ..old(self)@
                    })
                    &&& final(self).spec_header() == (PageHeader {
                        cell_content_start: (old(self).spec_header().cell_content_start
                            - spec_encode_cell(
                            leaf_view(old(self)@.cells[index as int].key, new_value@),
                        ).len()) as u16,
                        fragmented_bytes: fragmented_count(
                            old(self).spec_header().fragmented_bytes + spec_encode_cell(
                                old(self)@.cells[index as int],
                            ).len(),
                        ),
                        ..old(self).spec_header()
                    })
                },
                Err(StorageError::PageFull { page_id, needed, available }) => {
                    &&& old(self)@.page_type.spec_is_leaf()
                    &&& index < old(self)@.cells.len()
                    &&& old(self).spec_header().spec_free_space() < spec_encode_cell(
                        leaf_view(old(self)@.cells[index as int].key, new_value@),
                    ).len()
                    &&& page_id == PageId(u32::MAX)
                    &&& needed == spec_encode_cell(
                        leaf_view(old(self)@.cells[index as int].key, new_value@),
                    ).len() + 2
                    &&& available == old(self).spec_header().spec_free_space()
                    &&& final(self).image() == old(self).image()
                    &&& final(self).spec_header() == old(self).spec_header()
                },
                Err(StorageError::InvalidOperation(_)) => {
                    &&& !old(self)@.page_type.spec_is_leaf() || index >= old(self)@.cells.len()
                    &&& final(self).image() == old(self).image()
                    &&& final(self).spec_header() == old(self).spec_header()
                },
                Err(_) => false,
            },
    {
        if !self.is_leaf() {
            return Err(StorageError::invalid_operation("update_cell called on interior page"));
        }
        let count = self.cell_count();
        if index >= count {
            let start = numbered("cell index ", index, " out of bounds (count: ");
            let text = numbered(start.as_str(), count, ")");
            return Err(StorageError::invalid_operation(text.as_str()));
        }
        proof {
            self.lemma_wf();
        }
        let found = self.cell(index);
        let new_cell = Cell::new_leaf(found.0.key, vstd::slice::slice_to_vec(new_value));
        let size = new_cell.encoded_size();
        let available = self.header.free_space();
        if available < size {
            return Err(
                StorageError::PageFull { page_id: PageId::invalid(), needed: size + 2, available },
            );
        }
        let ghost before = self@.cells;
        let deleted = self.delete_cell(index);
        proof {
            self.lemma_wf();
            let after = self@.cells;
            assert(after == before.remove(index as int));
            assert forall|i: int| 0 <= i < index implies key_lt(
                #[trigger] after[i].key,
                new_cell.key@,
            ) by {
                assert(after[i] == before[i]);
                assert(key_lt(before[i].key, before[index as int].key));
            }
            assert forall|i: int| index <= i < after.len() implies key_lt(
                new_cell.key@,
                #[trigger] after[i].key,
            ) by {
                assert(after[i] == before[i + 1]);
                assert(key_lt(before[index as int].key, before[i + 1].key));
            }
            assert(before.remove(index as int).insert(index as int, new_cell@) =~= before.update(
                index as int,
                new_cell@,
            ));
        }
        self.insert_at(&new_cell, index, size);
        Ok(())
    }

    /// A packed page of the table kind, leaf or interior, that holds the
    /// cells `from..to` of `cells`.
    #[verifier::rlimit(60)]
    fn rebuild(leaf: bool, right_child: PageId, cells: &Vec<Cell>, from: usize, to: usize) -> (r:
        Self)
        requires
            from <= to <= cells@.len(),
            leaf ==> right_child == PageId(0),
            forall|i: int|
                from <= i < to ==> (#[trigger] cells@[i]).cell_type == (if leaf {
                    CellType::Leaf
                } else {
                    CellType::Interior
                }) && cells@[i].key@.len() + cells@[i].value@.len() <= PAGE_SIZE,
            keys_sorted(views_of(cells@).subrange(from as int, to as int)),
            (if leaf {
                LEAF_HEADER_SIZE
            } else {
                INTERIOR_HEADER_SIZE
            }) + 2 * (to - from) + cells_size(views_of(cells@).subrange(from as int, to as int))
                <= PAGE_SIZE,
        ensures
            r.wf(),
            r.tidy(),
            r@ == (PageView {
                page_type: if leaf {
                    PageType::LeafTable
                } else {
                    PageType::InteriorTable
                },
                right_child,
                cells: views_of(cells@).subrange(from as int, to as int),
            }),
            r.spec_header() == packed_header(r@),
            r.image() == packed_image(r@),
    {
        let mut page = if leaf {
            SlottedPage::new_leaf()
        } else {
            let mut p = SlottedPage::new_interior();
            p.set_right_child(right_child);
            p
        };
        let ghost all = views_of(cells@).subrange(from as int, to as int);
        let ghost hs: int = if leaf { 8 } else { 12 };
        proof {
            assert(all.subrange(0, 0) =~= Seq::<CellView>::empty());
            assert(cells_size(Seq::<CellView>::empty()) == 0);
            reveal(packed_image);
            assert(page.image() =~= packed_image(page@));
        }
        let mut j: usize = from;
        while j < to
            invariant
                from <= j <= to <= cells@.len(),
                all == views_of(cells@).subrange(from as int, to as int),
                forall|i: int|
                    from <= i < to ==> (#[trigger] cells@[i]).cell_type == (if leaf {
                        CellType::Leaf
                    } else {
                        CellType::Interior
                    }) && cells@[i].key@.len() + cells@[i].value@.len() <= PAGE_SIZE,
                keys_sorted(all),
                hs == (if leaf { 8int } else { 12int }),
                hs + 2 * (to - from) + cells_size(all) <= PAGE_SIZE,
                page.wf(),
                page.tidy(),
                page@ == (PageView {
                    page_type: if leaf {
                        PageType::LeafTable
                    } else {
                        PageType::InteriorTable
                    },
                    right_child,
                    cells: all.subrange(0, j - from),
                }),
                page.spec_header() == packed_header(page@),
                page.image() == packed_image(page@),
            decreases to - j,
        {
            let ghost before = page@.cells;
            let ghost front = page@;
            let ghost c = cells@[j as int]@;
            proof {
                page.lemma_wf();
                assert(all[j - from] == c);
                assert(all.subrange(0, j - from + 1) =~= before.push(c));
                lemma_cells_size_insert(before, before.len() as int, c);
                assert(before.insert(before.len() as int, c) =~= before.push(c));
                lemma_cells_size_subrange(all, 0, j - from + 1);
                assert forall|i: int| 0 <= i < before.len() implies key_lt(
                    #[trigger] before[i].key,
                    c.key,
                ) by {
                    assert(before[i] == all[i]);
                    assert(key_lt(all[i].key, all[j - from].key));
                }
            }
            let res = page.insert_cell(&cells[j]);
            proof {
                assert(res is Ok);
                let pos = res.unwrap();
                if pos < before.len() {
                    lemma_key_trichotomy(before[pos as int].key, c.key);
                    assert(false);
                }
                assert(page@.cells.drop_last() =~= before);
                assert(page@.cells.last() == c);
                assert((PageView { cells: page@.cells.drop_last(), ..page@ }) == front);
                reveal(packed_image);
            }
            j += 1;
        }
        proof {
            assert(all.subrange(0, to - from) =~= all);
        }
        page
    }

    /// Split this page, returning a new page with the upper half of the
    /// cells and the separator key for the parent.
    ///
    /// With `mid` half the cell count, rounded down: a leaf keeps the
    /// cells below `mid` and hands the rest to the new page, whose first
    /// key is the separator. An interior page keeps the cells below
    /// `mid`; the key of cell `mid` is the separator, its child becomes
    /// the header child of the new page, and the cells above `mid` move
    /// there. Both pages come out packed. A page without cells cannot be
    /// split.
    pub fn split(&mut self) -> (r: Result<(SlottedPage, Vec<u8>), StorageError>)
        requires
            old(self).wf(),
        ensures
            final(self).wf(),
            old(self).tidy() ==> final(self).tidy(),
            match r {
                Ok((new_page, separator)) => {
                    let cells = old(self)@.cells;
                    let mid = (cells.len() / 2) as int;
                    &&& cells.len() > 0
                    &&& new_page.wf()
                    &&& new_page.tidy()
                    &&& final(self).tidy()
                    &&& separator@ == cells[mid].key
                    &&& final(self)@ == (PageView {
                        page_type: rebuilt_type(old(self)@.page_type),
                        right_child: old(self)@.right_child,
                        cells: cells.take(mid),
                    })
                    &&& new_page@ == (PageView {
                        page_type: rebuilt_type(old(self)@.page_type),
                        right_child: if old(self)@.page_type.spec_is_leaf() {
                            PageId(0)
                        } else {
                            cells[mid].left_child
                        },
                        cells: if old(self)@.page_type.spec_is_leaf() {
                            cells.skip(mid)
                        } else {
                            cells.skip(mid + 1)
                        },
                    })
                    &&& final(self).spec_header() == packed_header(final(self)@)
                    &&& new_page.spec_header() == packed_header(new_page@)
                    &&& final(self).image() == packed_image(final(self)@)
                    &&& new_page.image() == packed_image(new_page@)
                },
                Err(StorageError::InvalidOperation(_)) => {
                    &&& old(self)@.cells.len() == 0
                    &&& final(self).image() == old(self).image()
                    &&& final(self).spec_header() == old(self).spec_header()
                },
                Err(_) => false,
            },
    {
        let cell_count = self.cell_count();
        if cell_count == 0 {
            return Err(StorageError::invalid_operation("cannot split an empty page"));
        }
        let mid = cell_count / 2;
        let leaf = self.is_leaf();
        let cells = match self.get_all_cells() {
            Ok(cells) => cells,
            Err(e) => {
                return Err(e);
            },
        };
        let ghost all = self@.cells;
        proof {
            self.lemma_wf();
            assert(views_of(cells@) =~= all);
            lemma_sorted_subrange(all, 0, mid as int);
            lemma_sorted_subrange(all, mid as int, cell_count as int);
            lemma_sorted_subrange(all, mid + 1, cell_count as int);
            lemma_cells_size_subrange(all, 0, mid as int);
            lemma_cells_size_subrange(all, mid as int, cell_count as int);
            lemma_cells_size_subrange(all, mid + 1, cell_count as int);
            assert(all.take(mid as int) =~= all.subrange(0, mid as int));
            assert(all.skip(mid as int) =~= all.subrange(mid as int, cell_count as int));
            assert(all.skip(mid + 1) =~= all.subrange(mid + 1, cell_count as int));
        }
        let separator = vstd::slice::slice_to_vec(cells[mid].key.as_slice());
        let new_page = if leaf {
            SlottedPage::rebuild(true, PageId::new(0), &cells, mid, cell_count)
        } else {
            SlottedPage::rebuild(false, cells[mid].left_child, &cells, mid + 1, cell_count)
        };
        let kept = SlottedPage::rebuild(leaf, self.right_child(), &cells, 0, mid);
        *self = kept;
        Ok((new_page, separator))
    }

    /// Defragment the page to reclaim fragmented space: the page is
    /// rebuilt with its cells packed at the end, and its bytes are those
    /// of the packed page of its cells, whatever they were. A page that
    /// holds no cells by its kind stays as it is.
    pub fn defragment(&mut self) -> (r: Result<(), StorageError>)
        requires
            old(self).wf(),
        ensures
            final(self).wf(),
            r is Ok,
            old(self).tidy() ==> final(self).tidy(),
            cell_kind(old(self)@.page_type) is Some ==> final(self).tidy(),
            cell_kind(old(self)@.page_type) is Some ==> final(self)@ == (PageView {
                page_type: rebuilt_type(old(self)@.page_type),
                ..old(self)@
            }) && final(self).spec_header() == packed_header(final(self)@) && final(self).image()
                == packed_image(final(self)@),
            cell_kind(old(self)@.page_type) is None ==> final(self).image() == old(self).image()
                && final(self).spec_header() == old(self).spec_header(),
    {
        let leaf = self.is_leaf();
        if !leaf && !self.is_interior() {
            return Ok(());
        }
        let cells = match self.get_all_cells() {
            Ok(cells) => cells,
            Err(e) => {
                return Err(e);
            },
        };
        proof {
            self.lemma_wf();
            assert(views_of(cells@) =~= self@.cells);
            assert(self@.cells.subrange(0, self@.cells.len() as int) =~= self@.cells);
        }
        let rebuilt = SlottedPage::rebuild(leaf, self.right_child(), &cells, 0, cells.len());
        *self = rebuilt;
        Ok(())
    }
}

impl Clone for SlottedPage {
    fn clone(&self) -> (r: Self)
        ensures
            r.image() == self.image(),
            r.spec_header() == self.spec_header(),
            self.wf() ==> r.wf(),
            self.tidy() ==> r.tidy(),
    {
        let data = self.data.clone();
        assert(data@ =~= self.data@);
        SlottedPage { data, header: self.header }
    }
}

} // verus!
