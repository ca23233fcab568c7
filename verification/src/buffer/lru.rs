//! Least-recently-used order of pages.
//!
//! The order is a doubly-linked list threaded through a vector of nodes,
//! with a map from page id to node for removal in constant time. It is
//! modelled by the sequence of page ids from the most recently used to the
//! least recently used, in which no id occurs twice.
use std::collections::HashMap;
use vstd::prelude::*;

verus! {

#[derive(Clone, Copy)]
struct LruNode {
    page_id: u32,
    prev: Option<usize>,
    next: Option<usize>,
    active: bool,
}

/// Tracks the order in which pages were last used.
pub struct LruCache {
    /// Maps page ID to the node that holds it.
    positions: HashMap<u32, usize>,
    /// The nodes of the list.
    order: Vec<LruNode>,
    /// Head of the list (most recently used).
    head: Option<usize>,
    /// Tail of the list (least recently used).
    tail: Option<usize>,
    /// Nodes that are not in use.
    free_slots: Vec<usize>,
    /// The nodes of the list, from head to tail.
    list: Ghost<Seq<usize>>,
}

/// `s` without `x`, where `x` occurs in it.
pub open spec fn without(s: Seq<u32>, x: u32) -> Seq<u32> {
    if s.contains(x) {
        s.remove(s.index_of(x))
    } else {
        s
    }
}

/// No id occurs twice.
pub open spec fn distinct(s: Seq<u32>) -> bool {
    forall|i: int, j: int| 0 <= i < j < s.len() ==> s[i] != s[j]
}

/// In a sequence without repetition, an id is found where it stands.
pub proof fn lemma_index_of_distinct(s: Seq<u32>, i: int)
    requires
        distinct(s),
        0 <= i < s.len(),
    ensures
        s.contains(s[i]),
        s.index_of(s[i]) == i,
{
    let j = s.index_of(s[i]);
    if j < i {
        assert(s[j] != s[i]);
    } else if i < j {
        assert(s[i] != s[j]);
    }
}

/// Taking the last id out of a list without repetition leaves the ids
/// before it.
pub proof fn lemma_without_last(s: Seq<u32>)
    requires
        distinct(s),
        s.len() > 0,
    ensures
        without(s, s.last()) == s.drop_last(),
{
    lemma_index_of_distinct(s, s.len() - 1);
    assert(s.remove(s.len() - 1) =~= s.drop_last());
}

/// An id other than the one taken out stays in the list.
pub proof fn lemma_without_keeps(s: Seq<u32>, x: u32, y: u32)
    requires
        s.contains(y),
        y != x,
    ensures
        without(s, x).contains(y),
{
    if s.contains(x) {
        let i = s.index_of(x);
        let j = s.index_of(y);
        let t = s.remove(i);
        if j < i {
            assert(t[j] == y);
        } else {
            assert(t[j - 1] == y);
        }
    }
}

/// What is left once `x` was taken out held the id before, and is not `x`
/// where no id occurs twice.
pub proof fn lemma_without_loses(s: Seq<u32>, x: u32, y: u32)
    requires
        distinct(s),
        without(s, x).contains(y),
    ensures
        s.contains(y),
        y != x,
{
    if s.contains(x) {
        let i = s.index_of(x);
        let t = s.remove(i);
        let j = t.index_of(y);
        if j < i {
            assert(s[j] == y);
        } else {
            assert(s[j + 1] == y);
        }
    }
}

/// Once `x` was used, the list holds it and every id that it held.
pub proof fn lemma_access_keeps(s: Seq<u32>, x: u32, y: u32)
    requires
        s.contains(y) || y == x,
    ensures
        (seq![x] + without(s, x)).contains(y),
{
    let t = seq![x] + without(s, x);
    if y == x {
        assert(t[0] == x);
    } else {
        lemma_without_keeps(s, x, y);
        let j = without(s, x).index_of(y);
        assert(t[j + 1] == y);
    }
}

/// Where in the order of use the page stands that is to give way: the
/// least recently used one that is not pinned. It is -1 where every page
/// is pinned.
pub open spec fn victim_index(order: Seq<u32>, pinned: Set<u32>) -> int
    decreases order.len(),
{
    if order.len() == 0 {
        -1
    } else if !pinned.contains(order.last()) {
        order.len() - 1
    } else {
        victim_index(order.drop_last(), pinned)
    }
}

/// The order of use once the page at `i` gave way: the pinned pages that
/// were used less recently came up before it, and count as used again,
/// in their order.
pub open spec fn order_without_victim(order: Seq<u32>, i: int) -> Seq<u32> {
    order.skip(i + 1) + order.take(i)
}

/// The page that gives way stands before the pinned pages at the end of
/// the order of use.
pub proof fn lemma_victim_before(order: Seq<u32>, pinned: Set<u32>, m: int)
    requires
        0 <= m <= order.len(),
        forall|i: int| m <= i < order.len() ==> pinned.contains(#[trigger] order[i]),
    ensures
        victim_index(order, pinned) == victim_index(order.take(m), pinned),
        -1 <= victim_index(order, pinned) < m,
        victim_index(order, pinned) >= 0 ==> !pinned.contains(order[victim_index(order, pinned)]),
        victim_index(order, pinned) == -1 ==> forall|i: int|
            0 <= i < order.len() ==> pinned.contains(#[trigger] order[i]),
    decreases order.len(),
{
    if order.len() == 0 {
        assert(order.take(m) =~= order);
    } else if m == order.len() {
        assert(order.take(m) =~= order);
        if pinned.contains(order.last()) {
            let front = order.drop_last();
            lemma_victim_before(front, pinned, m - 1);
            assert forall|i: int| 0 <= i < order.len() && victim_index(order, pinned)
                == -1 implies pinned.contains(#[trigger] order[i]) by {
                if i < order.len() - 1 {
                    assert(front[i] == order[i]);
                }
            }
        }
    } else {
        let front = order.drop_last();
        assert(pinned.contains(order[order.len() - 1]));
        lemma_victim_before(front, pinned, m);
        assert(front.take(m) =~= order.take(m));
        assert forall|i: int| 0 <= i < order.len() && victim_index(order, pinned)
            == -1 implies pinned.contains(#[trigger] order[i]) by {
            if i < order.len() - 1 {
                assert(front[i] == order[i]);
            }
        }
    }
}

/// Once `x` was used, the list holds `x` and what it held, and no other
/// id.
pub proof fn lemma_access_loses(s: Seq<u32>, x: u32, y: u32)
    requires
        distinct(s),
        (seq![x] + without(s, x)).contains(y),
    ensures
        y == x || s.contains(y),
{
    let t = seq![x] + without(s, x);
    let j = t.index_of(y);
    if j > 0 {
        assert(without(s, x)[j - 1] == y);
        lemma_without_loses(s, x, y);
    }
}

/// The links of the nodes `n` spell the list `l`, from head to tail.
spec fn links_ok(l: Seq<usize>, n: Seq<LruNode>, head: Option<usize>, tail: Option<usize>) -> bool {
    &&& forall|i: int| 0 <= i < l.len() ==> (#[trigger] l[i]) < n.len()
    &&& forall|i: int, j: int| 0 <= i < j < l.len() ==> #[trigger] l[i] != #[trigger] l[j]
    &&& forall|i: int, j: int|
        0 <= i && j == i + 1 && j < l.len() ==> n[(#[trigger] l[i]) as int].next == Some(
            #[trigger] l[j],
        ) && n[l[j] as int].prev == Some(l[i])
    &&& l.len() > 0 ==> n[l[0] as int].prev.is_none() && n[l[l.len() - 1] as int].next.is_none()
    &&& head == (if l.len() == 0 {
        None::<usize>
    } else {
        Some(l[0])
    })
    &&& tail == (if l.len() == 0 {
        None::<usize>
    } else {
        Some(l[l.len() - 1])
    })
}

/// The map and the free slots agree with the list: the nodes of the list
/// are the active ones, the map leads from every id in the list to its
/// node and holds nothing else, and the free slots are inactive nodes,
/// each named once.
spec fn index_ok(l: Seq<usize>, n: Seq<LruNode>, positions: Map<u32, usize>, free: Seq<usize>) -> bool {
    &&& n.len() <= usize::MAX
    &&& forall|i: int|
        0 <= i < l.len() ==> (#[trigger] l[i]) < n.len() && n[l[i] as int].active
            && positions.contains_key(n[l[i] as int].page_id) && positions[n[l[i] as int].page_id]
            == l[i]
    &&& forall|k: int| 0 <= k < n.len() && (#[trigger] n[k]).active ==> l.contains(k as usize)
    &&& forall|p: u32| #[trigger]
        positions.contains_key(p) ==> positions[p] < n.len() && n[positions[p] as int].active
            && n[positions[p] as int].page_id == p
    &&& forall|a: int| 0 <= a < free.len() ==> (#[trigger] free[a]) < n.len()
        && !n[free[a] as int].active
    &&& forall|a: int, b: int| 0 <= a < b < free.len() ==> #[trigger] free[a] != #[trigger] free[b]
}

/// The page ids of the list `l`, in order.
spec fn ids_of(l: Seq<usize>, n: Seq<LruNode>) -> Seq<u32> {
    Seq::new(l.len(), |i: int| n[l[i] as int].page_id)
}

/// Nodes `n2` are nodes `n` but for links.
spec fn same_ids(n: Seq<LruNode>, n2: Seq<LruNode>) -> bool {
    &&& n2.len() == n.len()
    &&& forall|k: int|
        0 <= k < n.len() ==> (#[trigger] n2[k]).page_id == n[k].page_id && n2[k].active
            == n[k].active
}

proof fn lemma_ids_distinct(l: Seq<usize>, n: Seq<LruNode>, positions: Map<u32, usize>, free: Seq<usize>)
    requires
        index_ok(l, n, positions, free),
        forall|i: int, j: int| 0 <= i < j < l.len() ==> #[trigger] l[i] != #[trigger] l[j],
    ensures
        distinct(ids_of(l, n)),
{
    let v = ids_of(l, n);
    assert forall|i: int, j: int| 0 <= i < j < v.len() implies v[i] != v[j] by {
        assert(positions[n[l[i] as int].page_id] == l[i]);
        assert(positions[n[l[j] as int].page_id] == l[j]);
    }
}

/// A list without its node `i` is linked once the neighbours of that node
/// point to each other.
proof fn lemma_unlink(
    l: Seq<usize>,
    n: Seq<LruNode>,
    head: Option<usize>,
    tail: Option<usize>,
    i: int,
    n2: Seq<LruNode>,
    head2: Option<usize>,
    tail2: Option<usize>,
)
    requires
        links_ok(l, n, head, tail),
        0 <= i < l.len(),
        n2.len() == n.len(),
        forall|k: int|
            0 <= k < n.len() ==> (#[trigger] n2[k]).next == (if i > 0 && k == l[i - 1] {
                n[l[i] as int].next
            } else {
                n[k].next
            }),
        forall|k: int|
            0 <= k < n.len() ==> (#[trigger] n2[k]).prev == (if i < l.len() - 1 && k == l[i + 1] {
                n[l[i] as int].prev
            } else {
                n[k].prev
            }),
        head2 == (if i == 0 {
            n[l[i] as int].next
        } else {
            head
        }),
        tail2 == (if i == l.len() - 1 {
            n[l[i] as int].prev
        } else {
            tail
        }),
    ensures
        links_ok(l.remove(i), n2, head2, tail2),
{
    let m = l.remove(i);
    assert forall|k: int| 0 <= k < m.len() implies (#[trigger] m[k]) < n2.len() && m[k] == l[if k
        < i {
        k
    } else {
        k + 1
    }] by {}
    assert forall|a: int, b: int| 0 <= a < b < m.len() implies #[trigger] m[a] != #[trigger] m[b] by {
        let sa = if a < i { a } else { a + 1 };
        let sb = if b < i { b } else { b + 1 };
        assert(l[sa] != l[sb]);
    }
    if i > 0 {
        assert(n[l[i - 1] as int].next == Some(l[i]) && n[l[i] as int].prev == Some(l[i - 1]));
    }
    if i < l.len() - 1 {
        assert(n[l[i] as int].next == Some(l[i + 1]) && n[l[i + 1] as int].prev == Some(l[i]));
    }
    assert forall|a: int, b: int| 0 <= a && b == a + 1 && b < m.len() implies n2[(
    #[trigger] m[a]) as int].next == Some(#[trigger] m[b]) && n2[m[b] as int].prev == Some(
        m[a],
    ) by {
        let sa = if a < i { a } else { a + 1 };
        let sb = if b < i { b } else { b + 1 };
        assert(m[a] == l[sa] && m[b] == l[sb]);
        if i > 0 && sa != i - 1 {
            if sa < i - 1 {
                assert(l[sa] != l[i - 1]);
            } else {
                assert(l[i - 1] != l[sa]);
            }
        }
        if i < l.len() - 1 && sb != i + 1 {
            if sb < i + 1 {
                assert(l[sb] != l[i + 1]);
            } else {
                assert(l[i + 1] != l[sb]);
            }
        }
        if sb == sa + 1 {
            assert(n[l[sa] as int].next == Some(l[sb]) && n[l[sb] as int].prev == Some(l[sa]));
        }
    }
    if m.len() > 0 {
        let first = if i == 0 { 1int } else { 0int };
        let last = if i == l.len() - 1 { l.len() - 2 } else { l.len() - 1 };
        assert(m[0] == l[first]);
        assert(m[m.len() - 1] == l[last]);
        if i < l.len() - 1 && first != i + 1 {
            assert(l[first] != l[i + 1]);
        }
        if i > 0 && last != i - 1 {
            assert(l[i - 1] != l[last]);
        }
    }
}

/// A list with a node put before it is linked once that node and the old
/// head point to each other.
proof fn lemma_link_front(
    l: Seq<usize>,
    n: Seq<LruNode>,
    head: Option<usize>,
    tail: Option<usize>,
    pos: usize,
    n2: Seq<LruNode>,
)
    requires
        links_ok(l, n, head, tail),
        pos < n.len(),
        !l.contains(pos),
        n2.len() == n.len(),
        n2[pos as int].prev.is_none(),
        n2[pos as int].next == head,
        forall|k: int| 0 <= k < n.len() && k != pos ==> (#[trigger] n2[k]).next == n[k].next,
        forall|k: int|
            0 <= k < n.len() && k != pos ==> (#[trigger] n2[k]).prev == (if l.len() > 0 && k
                == l[0] {
                Some(pos)
            } else {
                n[k].prev
            }),
    ensures
        links_ok(
            seq![pos] + l,
            n2,
            Some(pos),
            if tail.is_none() {
                Some(pos)
            } else {
                tail
            },
        ),
{
    let m = seq![pos] + l;
    assert forall|k: int| 0 <= k < m.len() implies (#[trigger] m[k]) < n2.len() && (k > 0 ==> m[k]
        == l[k - 1] && l[k - 1] != pos) by {
        if k > 0 {
            assert(l.contains(l[k - 1]));
        }
    }
    assert forall|a: int, b: int| 0 <= a < b < m.len() implies #[trigger] m[a] != #[trigger] m[b] by {
        assert(m[b] == l[b - 1]);
        assert(l.contains(l[b - 1]));
        if a > 0 {
            assert(m[a] == l[a - 1]);
            assert(l[a - 1] != l[b - 1]);
        }
    }
    assert forall|a: int, b: int| 0 <= a && b == a + 1 && b < m.len() implies n2[(
    #[trigger] m[a]) as int].next == Some(#[trigger] m[b]) && n2[m[b] as int].prev == Some(
        m[a],
    ) by {
        assert(m[b] == l[a]);
        assert(l.contains(l[a]));
        if a > 0 {
            assert(m[a] == l[a - 1]);
            assert(l.contains(l[a - 1]));
            assert(n[l[a - 1] as int].next == Some(l[a]) && n[l[a] as int].prev == Some(l[a - 1]));
            assert(l[0] != l[a]);
        }
    }
    if l.len() > 0 {
        assert(m[m.len() - 1] == l[l.len() - 1]);
        assert(l.contains(l[l.len() - 1]));
    }
}

/// The index agrees with a list whose node `i` has moved to the front.
proof fn lemma_index_moved(
    l: Seq<usize>,
    n: Seq<LruNode>,
    positions: Map<u32, usize>,
    free: Seq<usize>,
    i: int,
    n2: Seq<LruNode>,
)
    requires
        index_ok(l, n, positions, free),
        forall|a: int, b: int| 0 <= a < b < l.len() ==> #[trigger] l[a] != #[trigger] l[b],
        0 <= i < l.len(),
        same_ids(n, n2),
    ensures
        index_ok(seq![l[i]] + l.remove(i), n2, positions, free),
        ids_of(seq![l[i]] + l.remove(i), n2) == seq![n[l[i] as int].page_id] + ids_of(l, n).remove(
            i,
        ),
{
    let m = seq![l[i]] + l.remove(i);
    assert forall|k: int| 0 <= k < m.len() implies (#[trigger] m[k]) == l[if k == 0 {
        i
    } else if k - 1 < i {
        k - 1
    } else {
        k
    }] by {}
    assert forall|k: int| 0 <= k < n2.len() && (#[trigger] n2[k]).active implies m.contains(
        k as usize,
    ) by {
        assert(n[k].active);
        let a = l.index_of(k as usize);
        assert(l.contains(k as usize));
        let dst = if a == i { 0 } else if a < i { a + 1 } else { a };
        assert(m[dst] == l[a]);
    }
    assert forall|p: u32| #[trigger] positions.contains_key(p) implies positions[p] < n2.len()
        && n2[positions[p] as int].active && n2[positions[p] as int].page_id == p by {
        assert(n[positions[p] as int].active);
    }
    assert forall|a: int| 0 <= a < free.len() implies (#[trigger] free[a]) < n2.len()
        && !n2[free[a] as int].active by {
        assert(!n[free[a] as int].active);
    }
    assert(ids_of(m, n2) =~= seq![n[l[i] as int].page_id] + ids_of(l, n).remove(i));
}

/// The index agrees with a list that a fresh node was put before.
proof fn lemma_index_inserted(
    l: Seq<usize>,
    n: Seq<LruNode>,
    positions: Map<u32, usize>,
    free: Seq<usize>,
    pos: usize,
    page_id: u32,
    n2: Seq<LruNode>,
    free2: Seq<usize>,
)
    requires
        index_ok(l, n, positions, free),
        !positions.contains_key(page_id),
        pos < n2.len(),
        n2.len() >= n.len(),
        pos < n.len() ==> !n[pos as int].active,
        n2[pos as int].active,
        n2[pos as int].page_id == page_id,
        forall|k: int|
            0 <= k < n.len() && k != pos ==> (#[trigger] n2[k]).page_id == n[k].page_id
                && n2[k].active == n[k].active,
        n2.len() <= n.len() + 1,
        n2.len() <= usize::MAX,
        n2.len() > n.len() ==> pos == n.len(),
        forall|a: int| 0 <= a < free2.len() ==> (#[trigger] free2[a]) != pos && free.contains(
            free2[a],
        ),
        forall|a: int, b: int| 0 <= a < b < free2.len()
            ==> #[trigger] free2[a] != #[trigger] free2[b],
    ensures
        !l.contains(pos),
        index_ok(seq![pos] + l, n2, positions.insert(page_id, pos), free2),
        ids_of(seq![pos] + l, n2) == seq![page_id] + ids_of(l, n),
{
    let m = seq![pos] + l;
    let positions2 = positions.insert(page_id, pos);
    if l.contains(pos) {
        let a = l.index_of(pos);
        assert(n[l[a] as int].active);
    }
    assert forall|k: int| 0 <= k < m.len() implies (#[trigger] m[k]) < n2.len()
        && n2[m[k] as int].active
        && positions2.contains_key(n2[m[k] as int].page_id) && positions2[n2[m[k] as int].page_id]
        == m[k] by {
        if k > 0 {
            assert(m[k] == l[k - 1]);
            assert(l.contains(l[k - 1]));
            assert(positions.contains_key(n[l[k - 1] as int].page_id));
        }
    }
    assert forall|k: int| 0 <= k < n2.len() && (#[trigger] n2[k]).active implies m.contains(
        k as usize,
    ) by {
        if k == pos {
            assert(m[0] == pos);
        } else {
            assert(n[k].active);
            assert(l.contains(k as usize));
            let a = l.index_of(k as usize);
            assert(m[a + 1] == l[a]);
        }
    }
    assert forall|p: u32| #[trigger] positions2.contains_key(p) implies positions2[p] < n2.len()
        && n2[positions2[p] as int].active && n2[positions2[p] as int].page_id == p by {
        if p != page_id {
            assert(positions.contains_key(p));
            assert(n[positions[p] as int].active);
        }
    }
    assert forall|a: int| 0 <= a < free2.len() implies (#[trigger] free2[a]) < n2.len()
        && !n2[free2[a] as int].active by {
        let b = free.index_of(free2[a]);
        assert(free[b] == free2[a]);
        assert(!n[free[b] as int].active);
    }
    assert forall|k: int| 0 <= k < l.len() implies n2[(#[trigger] l[k]) as int].page_id
        == n[l[k] as int].page_id by {
        assert(l.contains(l[k]));
    }
    assert(ids_of(m, n2) =~= seq![page_id] + ids_of(l, n));
}

/// The index agrees with a list that lost its node `i`, once that node is
/// inactive, out of the map and among the free slots.
proof fn lemma_index_removed(
    l: Seq<usize>,
    n: Seq<LruNode>,
    positions: Map<u32, usize>,
    free: Seq<usize>,
    i: int,
    n2: Seq<LruNode>,
)
    requires
        index_ok(l, n, positions, free),
        forall|a: int, b: int| 0 <= a < b < l.len() ==> #[trigger] l[a] != #[trigger] l[b],
        0 <= i < l.len(),
        n2.len() == n.len(),
        !n2[l[i] as int].active,
        forall|k: int|
            0 <= k < n.len() && k != l[i] ==> (#[trigger] n2[k]).page_id == n[k].page_id
                && n2[k].active == n[k].active,
    ensures
        index_ok(l.remove(i), n2, positions.remove(n[l[i] as int].page_id), free.push(l[i])),
        ids_of(l.remove(i), n2) == ids_of(l, n).remove(i),
{
    let m = l.remove(i);
    let pid = n[l[i] as int].page_id;
    let positions2 = positions.remove(pid);
    let free2 = free.push(l[i]);
    assert forall|k: int| 0 <= k < m.len() implies (#[trigger] m[k]) == l[if k < i {
        k
    } else {
        k + 1
    }] && m[k] != l[i] by {
        let src = if k < i { k } else { k + 1 };
        assert(m[k] == l[src]);
        if src < i {
            assert(l[src] != l[i]);
        } else {
            assert(l[i] != l[src]);
        }
    }
    assert forall|k: int| 0 <= k < m.len() implies (#[trigger] m[k]) < n2.len()
        && n2[m[k] as int].active
        && positions2.contains_key(n2[m[k] as int].page_id) && positions2[n2[m[k] as int].page_id]
        == m[k] by {
        let src = if k < i { k } else { k + 1 };
        assert(m[k] == l[src]);
        assert(positions[n[l[src] as int].page_id] == l[src]);
        assert(positions[pid] == l[i]);
    }
    assert forall|k: int| 0 <= k < n2.len() && (#[trigger] n2[k]).active implies m.contains(
        k as usize,
    ) by {
        assert(k != l[i]);
        assert(n[k].active);
        assert(l.contains(k as usize));
        let a = l.index_of(k as usize);
        assert(l[a] == k as usize);
        assert(a != i);
        let dst = if a < i { a } else { a - 1 };
        assert(m[dst] == l[a]);
    }
    assert forall|p: u32| #[trigger] positions2.contains_key(p) implies positions2[p] < n2.len()
        && n2[positions2[p] as int].active && n2[positions2[p] as int].page_id == p by {
        assert(positions.contains_key(p));
        assert(n[positions[p] as int].page_id == p);
    }
    assert forall|a: int| 0 <= a < free2.len() implies (#[trigger] free2[a]) < n2.len()
        && !n2[free2[a] as int].active by {
        if a < free.len() {
            assert(free2[a] == free[a]);
            assert(!n[free[a] as int].active);
        }
    }
    assert forall|a: int, b: int| 0 <= a < b < free2.len() implies #[trigger] free2[a]
        != #[trigger] free2[b] by {
        assert(free2[a] == free[a]);
        assert(!n[free[a] as int].active);
        if b < free.len() {
            assert(free2[b] == free[b]);
        } else {
            assert(n[l[i] as int].active);
        }
    }
    assert(ids_of(m, n2) =~= ids_of(l, n).remove(i));
}

impl View for LruCache {
    type V = Seq<u32>;

    closed spec fn view(&self) -> Seq<u32> {
        ids_of(self.list@, self.order@)
    }
}

impl LruCache {
    /// The links of the nodes spell the list.
    spec fn links_wf(&self) -> bool {
        links_ok(self.list@, self.order@, self.head, self.tail)
    }

    /// The cache is well formed.
    pub closed spec fn wf(&self) -> bool {
        &&& links_ok(self.list@, self.order@, self.head, self.tail)
        &&& index_ok(self.list@, self.order@, self.positions@, self.free_slots@)
    }

    /// In a well-formed cache no page id occurs twice.
    pub proof fn lemma_wf(&self)
        requires
            self.wf(),
        ensures
            distinct(self@),
    {
        lemma_ids_distinct(self.list@, self.order@, self.positions@, self.free_slots@);
    }

    /// The map holds a page id exactly if the list does, at the node that
    /// the map names.
    proof fn lemma_contains(&self, page_id: u32)
        requires
            self.wf(),
        ensures
            self.positions@.contains_key(page_id) <==> self@.contains(page_id),
            self.positions@.contains_key(page_id) ==> self.list@.contains(
                self.positions@[page_id],
            ) && self.order@[self.positions@[page_id] as int].page_id == page_id
                && self@.index_of(page_id) == self.list@.index_of(self.positions@[page_id]),
    {
        let l = self.list@;
        let n = self.order@;
        self.lemma_wf();
        if self.positions@.contains_key(page_id) {
            let k = self.positions@[page_id];
            assert(n[k as int].active);
            assert(l.contains(k));
            let a = l.index_of(k);
            assert(self@[a] == page_id);
            lemma_index_of_distinct(self@, a);
        }
        if self@.contains(page_id) {
            let a = self@.index_of(page_id);
            assert(self.positions@.contains_key(n[l[a] as int].page_id));
        }
    }

    /// Create a new cache, with room set aside for `capacity` pages.
    pub fn new(capacity: usize) -> (r: Self)
        ensures
            r.wf(),
            r@ == Seq::<u32>::empty(),
    {
        let r = LruCache {
            positions: HashMap::with_capacity(capacity),
            order: Vec::with_capacity(capacity),
            head: None,
            tail: None,
            free_slots: Vec::new(),
            list: Ghost(Seq::empty()),
        };
        assert(r@ =~= Seq::<u32>::empty());
        r
    }

    /// Unlink a node from the list.
    fn unlink(&mut self, pos: usize)
        requires
            old(self).links_wf(),
            old(self).list@.contains(pos),
        ensures
            final(self).links_wf(),
            final(self).list@ == old(self).list@.remove(old(self).list@.index_of(pos)),
            final(self).positions == old(self).positions,
            final(self).free_slots == old(self).free_slots,
            same_ids(old(self).order@, final(self).order@),
    {
        let ghost l = self.list@;
        let ghost i = l.index_of(pos);
        let ghost n0 = self.order@;
        let ghost head0 = self.head;
        let ghost tail0 = self.tail;
        proof {
            assert(0 <= i < l.len() && l[i] == pos);
            if i > 0 {
                assert(n0[l[i - 1] as int].next == Some(l[i]) && n0[l[i] as int].prev == Some(
                    l[i - 1],
                ));
            }
            if i < l.len() - 1 {
                assert(n0[l[i] as int].next == Some(l[i + 1]) && n0[l[i + 1] as int].prev == Some(
                    l[i],
                ));
                assert(l[i] != l[i + 1]);
            }
            if 0 < i < l.len() - 1 {
                assert(l[i - 1] != l[i + 1]);
            }
        }
        let node = self.order[pos];
        match node.prev {
            Some(prev) => {
                let mut p = self.order[prev];
                p.next = node.next;
                self.order.set(prev, p);
            },
            None => {
                self.head = node.next;
            },
        }
        match node.next {
            Some(next) => {
                let mut q = self.order[next];
                q.prev = node.prev;
                self.order.set(next, q);
            },
            None => {
                self.tail = node.prev;
            },
        }
        proof {
            self.list@ = l.remove(i);
            lemma_unlink(l, n0, head0, tail0, i, self.order@, self.head, self.tail);
        }
    }

    /// Link a node that is not in the list at its front.
    fn link_front(&mut self, pos: usize)
        requires
            old(self).links_wf(),
            pos < old(self).order@.len(),
            !old(self).list@.contains(pos),
        ensures
            final(self).links_wf(),
            final(self).list@ == seq![pos] + old(self).list@,
            final(self).positions == old(self).positions,
            final(self).free_slots == old(self).free_slots,
            same_ids(old(self).order@, final(self).order@),
    {
        let ghost l = self.list@;
        let ghost n0 = self.order@;
        let ghost head0 = self.head;
        let ghost tail0 = self.tail;
        let mut node = self.order[pos];
        node.prev = None;
        node.next = self.head;
        self.order.set(pos, node);
        match self.head {
            Some(old_head) => {
                proof {
                    assert(old_head == l[0]);
                    assert(l.contains(l[0]));
                }
                let mut h = self.order[old_head];
                h.prev = Some(pos);
                self.order.set(old_head, h);
            },
            None => {},
        }
        self.head = Some(pos);
        if self.tail.is_none() {
            self.tail = Some(pos);
        }
        proof {
            self.list@ = seq![pos] + l;
            lemma_link_front(l, n0, head0, tail0, pos, self.order@);
        }
    }

    /// Move a node to the front of the list.
    fn move_to_front(&mut self, pos: usize)
        requires
            old(self).wf(),
            old(self).list@.contains(pos),
        ensures
            final(self).wf(),
            final(self)@ == seq![old(self).order@[pos as int].page_id] + old(self)@.remove(
                old(self).list@.index_of(pos),
            ),
    {
        let ghost l = self.list@;
        let ghost i = l.index_of(pos);
        let ghost n0 = self.order@;
        if self.head == Some(pos) {
            proof {
                if i != 0 {
                    assert(l[0] != l[i]);
                }
                assert(seq![n0[pos as int].page_id] + self@.remove(0) =~= self@);
            }
            return ;
        }
        self.unlink(pos);
        proof {
            let m = l.remove(i);
            if m.contains(pos) {
                let k = m.index_of(pos);
                let src = if k < i { k } else { k + 1 };
                assert(m[k] == l[src]);
                if src < i {
                    assert(l[src] != l[i]);
                } else {
                    assert(l[i] != l[src]);
                }
            }
        }
        self.link_front(pos);
        proof {
            lemma_index_moved(l, n0, self.positions@, self.free_slots@, i, self.order@);
        }
    }

    /// Insert a new page at the front.
    fn insert(&mut self, page_id: u32)
        requires
            old(self).wf(),
            !old(self)@.contains(page_id),
        ensures
            final(self).wf(),
            final(self)@ == seq![page_id] + old(self)@,
    {
        let ghost l = self.list@;
        let ghost n0 = self.order@;
        let ghost free0 = self.free_slots@;
        let ghost positions0 = self.positions@;
        proof {
            self.lemma_contains(page_id);
        }
        let fresh = LruNode { page_id, prev: None, next: None, active: true };
        let pos = match self.free_slots.pop() {
            Some(pos) => {
                self.order.set(pos, fresh);
                pos
            },
            None => {
                let pos = self.order.len();
                self.order.push(fresh);
                pos
            },
        };
        let ghost n1 = self.order@;
        proof {
            let free2 = self.free_slots@;
            assert forall|a: int| 0 <= a < free2.len() implies (#[trigger] free2[a]) != pos
                && free0.contains(free2[a]) by {
                assert(free2[a] == free0[a]);
                if free0.len() > 0 && pos == free0[free0.len() - 1] {
                    assert(free0[a] != free0[free0.len() - 1]);
                } else {
                    assert(free0[a] < n0.len());
                }
            }
            assert forall|a: int, b: int| 0 <= a < b < free2.len() implies #[trigger] free2[a]
                != #[trigger] free2[b] by {
                assert(free2[a] == free0[a] && free2[b] == free0[b]);
            }
            if free0.len() > 0 {
                assert(!n0[free0[free0.len() - 1] as int].active);
            }
            if l.contains(pos) {
                let a = l.index_of(pos);
                assert(n0[l[a] as int].active);
            }
            assert(links_ok(l, n1, self.head, self.tail)) by {
                assert forall|k: int| 0 <= k < l.len() implies (#[trigger] l[k]) != pos by {
                    assert(l.contains(l[k]));
                }
            }
        }
        self.link_front(pos);
        self.positions.insert(page_id, pos);
        let node_count: usize = self.order.len();
        proof {
            assert(self.order@.len() == node_count);
            lemma_index_inserted(
                l,
                n0,
                positions0,
                free0,
                pos,
                page_id,
                self.order@,
                self.free_slots@,
            );
        }
    }

    /// Record access to a page: it becomes the most recently used.
    pub fn access(&mut self, page_id: u32)
        requires
            old(self).wf(),
        ensures
            final(self).wf(),
            final(self)@ == seq![page_id] + without(old(self)@, page_id),
    {
        proof {
            self.lemma_contains(page_id);
        }
        let found = match self.positions.get(&page_id) {
            Some(pos) => Some(*pos),
            None => None,
        };
        match found {
            Some(pos) => {
                // Already in cache, move to front.
                self.move_to_front(pos);
            },
            None => {
                // New entry, add to front.
                self.insert(page_id);
            },
        }
    }

    /// Remove a page from the cache.
    pub fn remove(&mut self, page_id: u32)
        requires
            old(self).wf(),
        ensures
            final(self).wf(),
            final(self)@ == without(old(self)@, page_id),
    {
        proof {
            self.lemma_contains(page_id);
        }
        let ghost l = self.list@;
        let ghost n0 = self.order@;
        let ghost free0 = self.free_slots@;
        let ghost positions0 = self.positions@;
        match self.positions.remove(&page_id) {
            Some(pos) => {
                let ghost i = l.index_of(pos);
                self.unlink(pos);
                let mut node = self.order[pos];
                node.active = false;
                self.order.set(pos, node);
                self.free_slots.push(pos);
                proof {
                    let n1 = self.order@;
                    let m = l.remove(i);
                    assert(links_ok(m, n1, self.head, self.tail));
                    lemma_index_removed(l, n0, positions0, free0, i, n1);
                }
            },
            None => {},
        }
    }

    /// Get the least recently used page ID.
    pub fn lru(&self) -> (r: Option<u32>)
        requires
            self.wf(),
        ensures
            self@.len() == 0 ==> r is None,
            self@.len() > 0 ==> r == Some(self@.last()),
    {
        match self.tail {
            Some(pos) => Some(self.order[pos].page_id),
            None => None,
        }
    }

    /// Pop the least recently used page ID.
    pub fn pop_lru(&mut self) -> (r: Option<u32>)
        requires
            old(self).wf(),
        ensures
            final(self).wf(),
            old(self)@.len() == 0 ==> r is None && final(self)@ == old(self)@,
            old(self)@.len() > 0 ==> r == Some(old(self)@.last())
                && final(self)@ == old(self)@.drop_last(),
    {
        let page_id = match self.lru() {
            Some(page_id) => page_id,
            None => {
                return None;
            },
        };
        proof {
            self.lemma_wf();
            let v = self@;
            lemma_index_of_distinct(v, v.len() - 1);
            assert(v.remove(v.len() - 1) =~= v.drop_last());
        }
        self.remove(page_id);
        Some(page_id)
    }

    /// Get the number of pages in the cache.
    pub fn len(&self) -> (r: usize)
        requires
            self.wf(),
        ensures
            r == self@.len(),
    {
        proof {
            self.lemma_len();
        }
        self.positions.len()
    }

    /// Check if the cache is empty.
    pub fn is_empty(&self) -> (r: bool)
        requires
            self.wf(),
        ensures
            r == (self@.len() == 0),
    {
        self.len() == 0
    }

    /// The map has as many entries as the list has nodes.
    proof fn lemma_len(&self)
        requires
            self.wf(),
        ensures
            self.positions@.dom().finite(),
            self.positions@.dom().len() == self@.len(),
    {
        self.lemma_wf();
        let v = self@;
        assert forall|p: u32| self.positions@.contains_key(p) <==> v.contains(p) by {
            self.lemma_contains(p);
        }
        assert(self.positions@.dom() =~= v.to_set());
        v.unique_seq_to_set();
    }
}

} // verus!
