//! The order of the beam.
//!
//! The beam is a binary min-heap of node indices in a sequence: the children
//! of position `i` are at `2 * i + 1` and `2 * i + 2`, and no node is below
//! its parent by key. The key of a node is its current total.

use vstd::prelude::*;
use crate::beam_list::EntryView;

verus! {

/// The sequence with the items at two positions exchanged.
pub open spec fn swapped(h: Seq<usize>, i: int, j: int) -> Seq<usize> {
    h.update(i, h[j]).update(j, h[i])
}

/// The key by which the beam orders a node: its current total.
pub open spec fn key(entries: Seq<EntryView>, idx: usize) -> int {
    entries[idx as int].new_p.total.ord()
}

/// The item at `i` is not below its parent in the heap.
pub open spec fn le_parent(entries: Seq<EntryView>, h: Seq<usize>, i: int) -> bool {
    key(entries, h[(i - 1) / 2]) <= key(entries, h[i])
}

/// The item at `i` is not below the parent of its parent.
pub open spec fn le_grandparent(entries: Seq<EntryView>, h: Seq<usize>, i: int) -> bool {
    key(entries, h[((i - 1) / 2 - 1) / 2]) <= key(entries, h[i])
}

/// `h` is a min-heap by key: no item is below its parent.
pub open spec fn ordered(entries: Seq<EntryView>, h: Seq<usize>) -> bool {
    forall|i: int| 0 < i < h.len() ==> #[trigger] le_parent(entries, h, i)
}

/// `h` after the item at `idx` has moved up past every parent that is
/// above it.
pub open spec fn sift_up(entries: Seq<EntryView>, h: Seq<usize>, idx: int) -> Seq<usize>
    decreases idx,
{
    if idx <= 0 {
        h
    } else {
        let parent = (idx - 1) / 2;
        if key(entries, h[idx]) >= key(entries, h[parent]) {
            h
        } else {
            sift_up(entries, swapped(h, idx, parent), parent)
        }
    }
}

/// `h` after the item at `idx` has moved down past every least child
/// that is below it. Of two equal children the left one is taken.
pub open spec fn sift_down(entries: Seq<EntryView>, h: Seq<usize>, idx: int) -> Seq<usize>
    decreases h.len() - idx,
{
    let left = 2 * idx + 1;
    let right = left + 1;
    if idx < 0 || left >= h.len() {
        h
    } else {
        let child = if right < h.len() && key(entries, h[right]) < key(entries, h[left]) {
            right
        } else {
            left
        };
        if key(entries, h[idx]) <= key(entries, h[child]) {
            h
        } else {
            sift_down(entries, swapped(h, idx, child), child)
        }
    }
}

/// Exchanging two items keeps the length and the items.
pub proof fn lemma_swapped(h: Seq<usize>, i: int, j: int)
    requires
        0 <= i < h.len(),
        0 <= j < h.len(),
    ensures
        swapped(h, i, j).len() == h.len(),
        swapped(h, i, j).to_multiset() == h.to_multiset(),
{
    broadcast use vstd::seq_lib::to_multiset_update;
    broadcast use vstd::multiset::group_multiset_axioms;

    let h1 = h.update(i, h[j]);
    h.to_multiset_ensures();
    h1.to_multiset_ensures();
    assert(h.contains(h[i]));
    assert(h1.contains(h1[j]));
    assert(h1.update(j, h[i]).to_multiset() =~= h.to_multiset());
}

/// Sequences of the same items name nodes of the same arenas.
pub proof fn lemma_same_items_in_range(n: nat, a: Seq<usize>, b: Seq<usize>)
    requires
        a.to_multiset() == b.to_multiset(),
        forall|i: int| 0 <= i < b.len() ==> (#[trigger] b[i]) < n,
    ensures
        forall|i: int| 0 <= i < a.len() ==> (#[trigger] a[i]) < n,
{
    a.to_multiset_ensures();
    b.to_multiset_ensures();
    assert forall|i: int| 0 <= i < a.len() implies (#[trigger] a[i]) < n by {
        assert(a.contains(a[i]));
        assert(a.to_multiset().count(a[i]) > 0);
        assert(b.to_multiset().count(a[i]) > 0);
        assert(b.contains(a[i]));
    }
}

/// Moving an item up keeps the length and the items.
pub proof fn lemma_sift_up_keeps(entries: Seq<EntryView>, h: Seq<usize>, idx: int)
    requires
        0 <= idx < h.len(),
    ensures
        sift_up(entries, h, idx).len() == h.len(),
        sift_up(entries, h, idx).to_multiset() == h.to_multiset(),
    decreases idx,
{
    if idx > 0 {
        let parent = (idx - 1) / 2;
        if key(entries, h[idx]) < key(entries, h[parent]) {
            lemma_swapped(h, idx, parent);
            lemma_sift_up_keeps(entries, swapped(h, idx, parent), parent);
        }
    }
}

/// Moving an item down keeps the length and the items.
pub proof fn lemma_sift_down_keeps(entries: Seq<EntryView>, h: Seq<usize>, idx: int)
    requires
        0 <= idx,
    ensures
        sift_down(entries, h, idx).len() == h.len(),
        sift_down(entries, h, idx).to_multiset() == h.to_multiset(),
    decreases h.len() - idx,
{
    let left = 2 * idx + 1;
    let right = left + 1;
    if left < h.len() {
        let child = if right < h.len() && key(entries, h[right]) < key(entries, h[left]) {
            right
        } else {
            left
        };
        if key(entries, h[idx]) > key(entries, h[child]) {
            lemma_swapped(h, idx, child);
            lemma_sift_down_keeps(entries, swapped(h, idx, child), child);
        }
    }
}

/// `h` is a min-heap but for the item at `idx`, which may be below its
/// parent; the children of `idx` are not below that parent.
pub open spec fn ordered_but_above(entries: Seq<EntryView>, h: Seq<usize>, idx: int) -> bool {
    &&& forall|i: int| 0 < i < h.len() && i != idx ==> #[trigger] le_parent(entries, h, i)
    &&& forall|c: int|
        0 < c < h.len() && (c - 1) / 2 == idx && idx > 0 ==> #[trigger] le_grandparent(
            entries,
            h,
            c,
        )
}

/// `h` is a min-heap but for the item at `idx`, which may be above its
/// children; those children are not below the parent of `idx`.
pub open spec fn ordered_but_below(entries: Seq<EntryView>, h: Seq<usize>, idx: int) -> bool {
    &&& forall|i: int| 0 < i < h.len() && (i - 1) / 2 != idx ==> #[trigger] le_parent(entries, h, i)
    &&& forall|c: int|
        0 < c < h.len() && (c - 1) / 2 == idx && idx > 0 ==> #[trigger] le_grandparent(
            entries,
            h,
            c,
        )
}

/// Moving up the one item that may be below its parent gives a min-heap.
pub proof fn lemma_sift_up_orders(entries: Seq<EntryView>, h: Seq<usize>, idx: int)
    requires
        0 <= idx < h.len(),
        ordered_but_above(entries, h, idx),
    ensures
        ordered(entries, sift_up(entries, h, idx)),
    decreases idx,
{
    if idx <= 0 {
    } else {
        let parent = (idx - 1) / 2;
        if key(entries, h[idx]) >= key(entries, h[parent]) {
            assert(le_parent(entries, h, idx));
        } else {
            let g = swapped(h, idx, parent);
            assert forall|i: int| 0 < i < g.len() && i != parent implies #[trigger] le_parent(
                entries,
                g,
                i,
            ) by {
                if i == idx {
                } else if (i - 1) / 2 == parent {
                    assert(le_parent(entries, h, i));
                } else if (i - 1) / 2 == idx {
                    assert(le_grandparent(entries, h, i));
                } else {
                    assert(le_parent(entries, h, i));
                }
            }
            assert forall|c: int|
                0 < c < g.len() && (c - 1) / 2 == parent && parent > 0 implies #[trigger] le_grandparent(
                entries,
                g,
                c,
            ) by {
                assert(le_parent(entries, h, parent));
                if c != idx {
                    assert(le_parent(entries, h, c));
                }
            }
            lemma_sift_up_orders(entries, g, parent);
        }
    }
}

/// Moving down the one item that may be above its children gives a min-heap.
pub proof fn lemma_sift_down_orders(entries: Seq<EntryView>, h: Seq<usize>, idx: int)
    requires
        0 <= idx < h.len(),
        ordered_but_below(entries, h, idx),
    ensures
        ordered(entries, sift_down(entries, h, idx)),
    decreases h.len() - idx,
{
    let left = 2 * idx + 1;
    let right = left + 1;
    if left >= h.len() {
        assert forall|i: int| 0 < i < h.len() implies #[trigger] le_parent(entries, h, i) by {
            assert((i - 1) / 2 != idx);
        }
    } else {
        let child = if right < h.len() && key(entries, h[right]) < key(entries, h[left]) {
            right
        } else {
            left
        };
        if key(entries, h[idx]) <= key(entries, h[child]) {
            assert forall|i: int| 0 < i < h.len() implies #[trigger] le_parent(entries, h, i) by {
                if (i - 1) / 2 == idx {
                    assert(i == left || i == right);
                }
            }
        } else {
            let g = swapped(h, idx, child);
            assert forall|i: int|
                0 < i < g.len() && (i - 1) / 2 != child implies #[trigger] le_parent(entries, g, i) by {
                if i == child {
                } else if (i - 1) / 2 == idx {
                    assert(i == left || i == right);
                } else if i == idx {
                    assert(le_grandparent(entries, h, child));
                } else {
                    assert(le_parent(entries, h, i));
                }
            }
            assert forall|c: int| 0 < c < g.len() && (c - 1) / 2 == child implies #[trigger] le_grandparent(
                entries,
                g,
                c,
            ) by {
                assert(le_parent(entries, h, c));
            }
            lemma_sift_down_orders(entries, g, child);
        }
    }
}

/// In a min-heap no item is below the one at the top.
pub proof fn lemma_top_is_least(entries: Seq<EntryView>, h: Seq<usize>, i: int)
    requires
        ordered(entries, h),
        0 <= i < h.len(),
    ensures
        key(entries, h[0]) <= key(entries, h[i]),
    decreases i,
{
    if i > 0 {
        assert(le_parent(entries, h, i));
        lemma_top_is_least(entries, h, (i - 1) / 2);
    }
}

/// A heap order is a matter of the keys of the items: it holds over other
/// entries that give each item the same key.
pub proof fn lemma_ordered_frame(before: Seq<EntryView>, after: Seq<EntryView>, h: Seq<usize>)
    requires
        ordered(before, h),
        forall|i: int| 0 <= i < h.len() ==> key(after, #[trigger] h[i]) == key(before, h[i]),
    ensures
        ordered(after, h),
{
    assert forall|i: int| 0 < i < h.len() implies #[trigger] le_parent(after, h, i) by {
        assert(le_parent(before, h, i));
        assert(key(after, h[(i - 1) / 2]) == key(before, h[(i - 1) / 2]));
        assert(key(after, h[i]) == key(before, h[i]));
    }
}

} // verus!
