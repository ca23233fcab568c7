//! Laws of the store.
//!
//! The operations of the store are specified over its content, a map from
//! keys to values: a put inserts into the map, a delete removes from it, a
//! get reads it, and a scan lists it in key order. The laws below say what
//! follows for sequences of operations.
use crate::btree::model::{
    admits, Bound, Entry, in_subtree, is_first, is_scan_of, keys_in_range, lemma_in_subtree_has,
    lemma_lists_unique, page_at, Pairs,
};
use crate::btree::tree::BTree;
use crate::page::cell::spec_encode_cell;
use crate::page::header::PageHeader;
use crate::page::slotted::{cells_size, extent_len, extent_start, keys_sorted, lemma_page_layout};
use crate::storage::disk_manager::{DiskManager, DiskManagerImpl, page_of_image};
use crate::types::PAGE_SIZE;
use crate::types::key_order::{key_le, key_lt, lemma_key_le_lt, lemma_key_trichotomy};
use crate::Db;
use vstd::prelude::*;

verus! {

/// Read your writes: once a value was put under a key, the key holds it;
/// once another value was put under the same key, the key holds that one.
pub proof fn law_put_then_get(
    content: Map<Seq<u8>, Seq<u8>>,
    key: Seq<u8>,
    first: Seq<u8>,
    second: Seq<u8>,
)
    ensures
        content.insert(key, first).contains_key(key),
        content.insert(key, first)[key] == first,
        content.insert(key, first).insert(key, second).contains_key(key),
        content.insert(key, first).insert(key, second)[key] == second,
{
}

/// A put under one key leaves every other key as it was.
pub proof fn law_put_leaves_other_keys(
    content: Map<Seq<u8>, Seq<u8>>,
    key: Seq<u8>,
    value: Seq<u8>,
    other: Seq<u8>,
)
    requires
        other != key,
    ensures
        content.insert(key, value).contains_key(other) == content.contains_key(other),
        content.contains_key(other) ==> content.insert(key, value)[other] == content[other],
{
}

/// A key that was never put is absent: an empty store holds no key, puts
/// under other keys do not bring it in, and a delete of an absent key
/// finds nothing and changes nothing.
pub proof fn law_absent_key(
    content: Map<Seq<u8>, Seq<u8>>,
    key: Seq<u8>,
    other: Seq<u8>,
    value: Seq<u8>,
)
    requires
        !content.contains_key(key),
        other != key,
    ensures
        !Map::<Seq<u8>, Seq<u8>>::empty().contains_key(key),
        !content.insert(other, value).contains_key(key),
        content.remove(key) == content,
{
    assert(content.remove(key) =~= content);
}

/// A delete is final and idempotent: the key is absent afterwards, and a
/// second delete finds nothing and changes nothing.
pub proof fn law_delete(content: Map<Seq<u8>, Seq<u8>>, key: Seq<u8>)
    ensures
        !content.remove(key).contains_key(key),
        content.remove(key).remove(key) == content.remove(key),
        forall|other: Seq<u8>|
            other != key ==> #[trigger] content.remove(key).contains_key(other)
                == content.contains_key(other),
{
    assert(content.remove(key).remove(key) =~= content.remove(key));
}

/// The content after a sequence of puts, the first pair first.
pub open spec fn put_all(content: Map<Seq<u8>, Seq<u8>>, puts: Pairs) -> Map<Seq<u8>, Seq<u8>>
    decreases puts.len(),
{
    if puts.len() == 0 {
        content
    } else {
        put_all(content, puts.drop_last()).insert(puts.last().0, puts.last().1)
    }
}

/// No key occurs twice among the pairs.
pub open spec fn distinct_keys(puts: Pairs) -> bool {
    forall|i: int, j: int| 0 <= i < j < puts.len()
        ==> (#[trigger] puts[i]).0 != (#[trigger] puts[j]).0
}

/// Every pair of `a` is a pair of `b`.
pub open spec fn pairs_within(a: Pairs, b: Pairs) -> bool {
    forall|i: int| 0 <= i < a.len() ==> exists|j: int| 0 <= j < b.len() && b[j] == #[trigger] a[i]
}

/// A sequence of puts of distinct keys leaves under the key of each of
/// its pairs the value of that pair.
pub proof fn lemma_put_all_hit(content: Map<Seq<u8>, Seq<u8>>, puts: Pairs, i: int)
    requires
        distinct_keys(puts),
        0 <= i < puts.len(),
    ensures
        put_all(content, puts).contains_key(puts[i].0),
        put_all(content, puts)[puts[i].0] == puts[i].1,
    decreases puts.len(),
{
    if i < puts.len() - 1 {
        let front = puts.drop_last();
        assert forall|a: int, b: int| 0 <= a < b < front.len() implies (#[trigger] front[a]).0 != (
        #[trigger] front[b]).0 by {
            assert(front[a] == puts[a] && front[b] == puts[b]);
        }
        assert(front[i] == puts[i]);
        lemma_put_all_hit(content, front, i);
        assert(puts[i].0 != puts[puts.len() - 1].0);
    }
}

/// A sequence of puts leaves a key that is not among its keys as it was.
pub proof fn lemma_put_all_miss(content: Map<Seq<u8>, Seq<u8>>, puts: Pairs, key: Seq<u8>)
    requires
        forall|i: int| 0 <= i < puts.len() ==> (#[trigger] puts[i]).0 != key,
    ensures
        put_all(content, puts).contains_key(key) == content.contains_key(key),
        content.contains_key(key) ==> put_all(content, puts)[key] == content[key],
    decreases puts.len(),
{
    if puts.len() > 0 {
        let front = puts.drop_last();
        assert forall|i: int| 0 <= i < front.len() implies (#[trigger] front[i]).0 != key by {
            assert(front[i] == puts[i]);
        }
        lemma_put_all_miss(content, front, key);
        assert(puts[puts.len() - 1].0 != key);
    }
}

/// Two sequences of the same pairs with distinct keys leave the same
/// under every key.
proof fn lemma_put_order_at(content: Map<Seq<u8>, Seq<u8>>, a: Pairs, b: Pairs, k: Seq<u8>)
    requires
        distinct_keys(a),
        distinct_keys(b),
        pairs_within(a, b),
        pairs_within(b, a),
    ensures
        put_all(content, a).contains_key(k) == put_all(content, b).contains_key(k),
        put_all(content, a).contains_key(k) ==> put_all(content, a)[k] == put_all(content, b)[k],
{
    if exists|i: int| 0 <= i < a.len() && (#[trigger] a[i]).0 == k {
        let i = choose|i: int| 0 <= i < a.len() && (#[trigger] a[i]).0 == k;
        let j = choose|j: int| 0 <= j < b.len() && b[j] == a[i];
        lemma_put_all_hit(content, a, i);
        lemma_put_all_hit(content, b, j);
    } else {
        assert forall|j: int| 0 <= j < b.len() implies (#[trigger] b[j]).0 != k by {
            let i = choose|i: int| 0 <= i < a.len() && a[i] == b[j];
            assert(a[i].0 != k);
        }
        lemma_put_all_miss(content, a, k);
        lemma_put_all_miss(content, b, k);
    }
}

/// The order of puts of distinct keys does not matter: two sequences of
/// the same pairs, in any order, leave the same content.
pub proof fn law_put_order(content: Map<Seq<u8>, Seq<u8>>, a: Pairs, b: Pairs)
    requires
        distinct_keys(a),
        distinct_keys(b),
        pairs_within(a, b),
        pairs_within(b, a),
    ensures
        put_all(content, a) == put_all(content, b),
{
    let x = put_all(content, a);
    let y = put_all(content, b);
    assert forall|k: Seq<u8>| #[trigger] x.contains_key(k) == y.contains_key(k) && (
    x.contains_key(k) ==> x[k] == y[k]) by {
        lemma_put_order_at(content, a, b, k);
    }
    assert(x =~= y);
}

/// A scan is determined by the content: whatever the order in which
/// distinct keys were put, the scan of the whole store, and of any range,
/// is the same list.
pub proof fn law_scan_independent_of_put_order(
    content: Map<Seq<u8>, Seq<u8>>,
    a: Pairs,
    b: Pairs,
    scan_a: Pairs,
    scan_b: Pairs,
    start: Bound,
    end: Bound,
)
    requires
        distinct_keys(a),
        distinct_keys(b),
        pairs_within(a, b),
        pairs_within(b, a),
        is_scan_of(scan_a, put_all(content, a), start, end),
        is_scan_of(scan_b, put_all(content, b), start, end),
    ensures
        scan_a == scan_b,
{
    law_put_order(content, a, b);
    lemma_lists_unique(
        scan_a,
        scan_b,
        put_all(content, a),
        keys_in_range(put_all(content, a), start, end),
    );
}

/// Every page of a sound tree is laid out in order: the keys that its cell
/// pointers lead to ascend strictly; every cell lies within the content
/// area and takes the bytes of its encoding; no two cells share a byte;
/// and the start of the content, the bytes of the cells and the
/// fragmented bytes add up to the page size. The header counts fragmented
/// bytes in one byte: where the count stands at 255, the three add up to
/// no more than the page size.
pub proof fn law_page_layout<D: DiskManager>(tree: &BTree<D>, x: u32)
    requires
        tree.inv(),
        tree.root().0 != 0,
        in_subtree(tree.pool().store(), tree.root().0, tree.spec_height() as nat, x),
    ensures
        ({
            let d = tree.pool().store()[x];
            let h = PageHeader::spec_read(d).unwrap();
            let cells = page_at(tree.pool().store(), x).cells;
            &&& cells.len() == h.cell_count
            &&& keys_sorted(cells)
            &&& forall|i: int|
                0 <= i < h.cell_count ==> h.cell_content_start <= #[trigger] extent_start(d, h, i)
                    && extent_start(d, h, i) + extent_len(d, h, i) <= PAGE_SIZE
            &&& forall|i: int|
                0 <= i < h.cell_count ==> #[trigger] extent_len(d, h, i) == spec_encode_cell(
                    cells[i],
                ).len()
            &&& forall|i: int, j: int|
                0 <= i < h.cell_count && 0 <= j < h.cell_count && i != j
                    ==> #[trigger] extent_start(
                    d,
                    h,
                    i,
                ) + extent_len(d, h, i) <= #[trigger] extent_start(d, h, j) || extent_start(d, h, j)
                    + extent_len(d, h, j) <= extent_start(d, h, i)
            &&& h.fragmented_bytes < 255 ==> h.cell_content_start + cells_size(cells)
                + h.fragmented_bytes == PAGE_SIZE
            &&& h.cell_content_start + cells_size(cells) + h.fragmented_bytes <= PAGE_SIZE
        }),
{
    let s = tree.pool().store();
    lemma_in_subtree_has(s, tree.root().0, tree.spec_height() as nat, None, None, x);
    assert(tree.page_ok(x));
    lemma_page_layout(s[x]);
}

/// What was flushed is there when the database is opened again. Take a
/// sound database on a dependable disk manager, with no modified page
/// in its pool, and the file as it stands once the pending actions are
/// performed: whoever opens that file finds a sound database with the
/// same content.
pub proof fn law_reopen(before: &Db<DiskManagerImpl>, after: &Db<DiskManagerImpl>)
    requires
        before.inv(),
        before.tree().pool().disk().dependable(),
        forall|k: u32| !before.tree().pool().is_dirty(k),
        after.opened_from(before.tree().pool().disk().file()),
    ensures
        after.inv(),
        after@ == before@,
{
    let disk = before.tree().pool().disk();
    let file = disk.file();
    let pages = disk.pages();
    before.tree().pool().lemma_store(0);
    disk.lemma_file();
    before.tree().pool().lemma_clean_store();
    assert forall|x: u32|
        0 < x < disk.header_view().page_count && #[trigger] pages.contains_key(x) implies {
        &&& after.tree().pool().store().contains_key(x)
        &&& after.tree().pool().store()[x] == pages[x]
    } by {
        assert(page_of_image(file, x) == Some(pages[x]));
    }
    before.tree().lemma_sound_by_content(&after.tree());
}

/// A cursor walks what a scan lists. Of the scan of a store from a key
/// on, the first pair is the first entry from that key on, and the pair
/// after each pair is the first entry after the key of that pair; after
/// the last pair there is none. An empty scan means that there is no
/// entry from the key on.
pub proof fn law_cursor_follows_scan(
    pairs: Pairs,
    content: Map<Seq<u8>, Seq<u8>>,
    from: Bound,
    i: int,
)
    requires
        is_scan_of(pairs, content, from, None),
        0 <= i < pairs.len() || (i == 0 && pairs.len() == 0),
    ensures
        is_first(
            if pairs.len() > 0 {
                Some(pairs[0])
            } else {
                None
            },
            content,
            from,
            false,
        ),
        i < pairs.len() ==> is_first(
            if i + 1 < pairs.len() {
                Some(pairs[i + 1])
            } else {
                None
            },
            content,
            Some(pairs[i].0),
            true,
        ),
{
    let keys = keys_in_range(content, from, None);
    assert forall|x: Seq<u8>| #[trigger] content.contains_key(x)
        && admits(from, false, x) implies exists|
        t: int,
    | 0 <= t < pairs.len() && (#[trigger] pairs[t]).0 == x by {
        assert(keys.contains(x));
    }
    if pairs.len() > 0 {
        assert(keys.contains(pairs[0].0));
        assert forall|x: Seq<u8>| #[trigger] content.contains_key(x)
            && admits(from, false, x) implies key_le(
            pairs[0].0,
            x,
        ) by {
            let t = choose|t: int| 0 <= t < pairs.len() && (#[trigger] pairs[t]).0 == x;
            if t > 0 {
                assert(key_lt(pairs[0].0, pairs[t].0));
            }
        }
    }
    if i < pairs.len() {
        let k = pairs[i].0;
        assert(keys.contains(k));
        assert forall|x: Seq<u8>| #[trigger] content.contains_key(x) && key_lt(k, x) implies exists|
            t: int,
        | i < t < pairs.len() && (#[trigger] pairs[t]).0 == x by {
            if from is Some {
                lemma_key_le_lt(from.unwrap(), k, x);
            }
            assert(keys.contains(x));
            let t = choose|t: int| 0 <= t < pairs.len() && (#[trigger] pairs[t]).0 == x;
            lemma_key_trichotomy(k, x);
            if t < i {
                assert(key_lt(pairs[t].0, pairs[i].0));
            }
        }
        if i + 1 < pairs.len() {
            assert(keys.contains(pairs[i + 1].0));
            assert(key_lt(pairs[i].0, pairs[i + 1].0));
            assert forall|x: Seq<u8>| #[trigger] content.contains_key(x)
                && admits(Some(k), true, x) implies key_le(
                pairs[i + 1].0,
                x,
            ) by {
                let t = choose|t: int| i < t < pairs.len() && (#[trigger] pairs[t]).0 == x;
                if t > i + 1 {
                    assert(key_lt(pairs[i + 1].0, pairs[t].0));
                }
            }
        } else {
            assert forall|x: Seq<u8>| #[trigger] content.contains_key(x) implies !admits(
                Some(k),
                true,
                x,
            ) by {
                if key_lt(k, x) {
                    let t = choose|t: int| i < t < pairs.len() && (#[trigger] pairs[t]).0 == x;
                }
            }
        }
    }
}

/// A store has one first entry from a key on: what a seek returns is
/// settled by the content of the store.
pub proof fn law_first_entry_is_unique(
    a: Entry,
    b: Entry,
    content: Map<Seq<u8>, Seq<u8>>,
    from: Bound,
    after: bool,
)
    requires
        is_first(a, content, from, after),
        is_first(b, content, from, after),
    ensures
        a == b,
{
    if a is Some && b is Some {
        let ka = a.unwrap().0;
        let kb = b.unwrap().0;
        assert(content.contains_key(ka) && content.contains_key(kb));
        assert(key_le(ka, kb) && key_le(kb, ka));
        lemma_key_trichotomy(ka, kb);
    } else if a is Some {
        assert(content.contains_key(a.unwrap().0));
    } else if b is Some {
        assert(content.contains_key(b.unwrap().0));
    }
}

} // verus!
