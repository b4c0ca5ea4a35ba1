//! A binary min-heap of slots in the 0-based array layout: its order, stated of the
//! counts at the heap positions, and how sifting a position restores it.

use crate::ranking;
use vstd::prelude::*;

verus! {

/// The heap position above `p`.
pub open spec fn parent(p: int) -> int {
    (p - 1) / 2
}

/// The count at `p` is no smaller than the count above it.
pub open spec fn edge_ok(counts: Seq<u64>, p: int) -> bool {
    counts[parent(p)] <= counts[p]
}

/// No count is smaller than the count above it.
pub open spec fn heap_ordered(counts: Seq<u64>) -> bool {
    forall|p: int| 0 < p < counts.len() ==> #[trigger] edge_ok(counts, p)
}

/// The counts below `pos` are no smaller than the count above `pos`.
pub open spec fn bridged(counts: Seq<u64>, pos: int) -> bool {
    forall|p: int|
        #![trigger counts[p]]
        0 < p < counts.len() && pos > 0 && parent(p) == pos ==> counts[parent(pos)] <= counts[p]
}

/// Only the count at `pos` may be smaller than the count above it.
pub open spec fn ordered_but_above(counts: Seq<u64>, pos: int) -> bool {
    &&& forall|p: int| 0 < p < counts.len() && p != pos ==> #[trigger] edge_ok(counts, p)
    &&& bridged(counts, pos)
}

/// Only the count at `pos` may be out of order, with the count above it or with
/// those below.
pub open spec fn ordered_but_at(counts: Seq<u64>, pos: int) -> bool {
    &&& forall|p: int|
        0 < p < counts.len() && p != pos && parent(p) != pos ==> #[trigger] edge_ok(counts, p)
    &&& bridged(counts, pos)
}

/// `items` with those at `i` and `j` exchanged.
pub open spec fn swapped<A>(items: Seq<A>, i: int, j: int) -> Seq<A> {
    items.update(i, items[j]).update(j, items[i])
}

/// The counts at the heap positions, where `counts` gives those of the slots.
pub open spec fn levels(heap: Seq<int>, counts: Seq<u64>) -> Seq<u64> {
    Seq::new(heap.len(), |p: int| counts[heap[p]])
}

/// Slot numbers as integers.
pub open spec fn slot_numbers(slots: Seq<u32>) -> Seq<int> {
    Seq::new(slots.len(), |p: int| slots[p] as int)
}

/// The heap position of a slot.
pub open spec fn place_of(heap: Seq<int>, slot: int) -> int {
    choose|p: int| 0 <= p < heap.len() && #[trigger] heap[p] == slot
}

/// Of `pos` and the positions below it, the one with the least count: `pos` where
/// it ties, and the left of two below it that tie.
pub open spec fn least_of(levels: Seq<u64>, pos: int) -> int {
    let left = 2 * pos + 1;
    let right = 2 * pos + 2;
    let first = if left < levels.len() && levels[left] < levels[pos] {
        left
    } else {
        pos
    };
    if right < levels.len() && levels[right] < levels[first] {
        right
    } else {
        first
    }
}

/// The heap after the slot at `pos` sank: it changes places with the least below
/// it as long as that has a smaller count.
pub open spec fn lowered(heap: Seq<int>, counts: Seq<u64>, pos: int) -> Seq<int>
    decreases heap.len() - pos,
{
    let least = least_of(levels(heap, counts), pos);
    if 0 <= pos < least < heap.len() {
        lowered(swapped(heap, pos, least), counts, least)
    } else {
        heap
    }
}

/// The heap after the slot at `pos` rose: it changes places with the one above it
/// as long as that has a larger count.
pub open spec fn raised(heap: Seq<int>, counts: Seq<u64>, pos: int) -> Seq<int>
    decreases pos,
{
    if 0 < pos < heap.len() && levels(heap, counts)[parent(pos)] > levels(heap, counts)[pos] {
        raised(swapped(heap, parent(pos), pos), counts, parent(pos))
    } else {
        heap
    }
}

/// The root of an ordered heap holds a least count.
pub proof fn lemma_root_is_least(counts: Seq<u64>, p: int)
    requires
        heap_ordered(counts),
        0 <= p < counts.len(),
    ensures
        counts[0] <= counts[p],
    decreases p,
{
    if p > 0 {
        lemma_root_is_least(counts, parent(p));
        assert(edge_ok(counts, p));
    }
}

/// Exchanging a count with the larger one above it moves the disorder up.
pub proof fn lemma_swap_up(counts: Seq<u64>, pos: int)
    requires
        0 < pos < counts.len(),
        ordered_but_above(counts, pos),
        counts[parent(pos)] > counts[pos],
    ensures
        ordered_but_above(swapped(counts, parent(pos), pos), parent(pos)),
{
    let up = parent(pos);
    let after = swapped(counts, up, pos);
    assert forall|p: int| 0 < p < after.len() && p != up implies #[trigger] edge_ok(after, p) by {
        assert(p != pos ==> edge_ok(counts, p));
        if up > 0 {
            assert(edge_ok(counts, up));
        }
    }
    assert forall|p: int|
        #![trigger after[p]]
        0 < p < after.len() && up > 0 && parent(p) == up implies after[parent(up)] <= after[p] by {
        assert(edge_ok(counts, up));
        assert(p != pos ==> edge_ok(counts, p));
    }
}

/// Exchanging a count with the smaller of those below it moves the disorder down.
pub proof fn lemma_swap_down(counts: Seq<u64>, pos: int, child: int)
    requires
        0 <= pos < child < counts.len(),
        parent(child) == pos,
        ordered_but_at(counts, pos),
        pos > 0 ==> counts[parent(pos)] <= counts[child],
        counts[child] < counts[pos],
        forall|p: int|
            #![trigger counts[p]]
            0 < p < counts.len() && parent(p) == pos ==> counts[child] <= counts[p],
    ensures
        ordered_but_at(swapped(counts, pos, child), child),
        pos > 0 ==> edge_ok(swapped(counts, pos, child), pos),
        edge_ok(swapped(counts, pos, child), child),
        forall|p: int|
            0 < p < counts.len() && parent(p) != child ==> #[trigger] edge_ok(
                swapped(counts, pos, child),
                p,
            ),
{
    let after = swapped(counts, pos, child);
    assert forall|p: int| 0 < p < counts.len() && parent(p) != child implies #[trigger] edge_ok(
        after,
        p,
    ) by {
        if p != pos && parent(p) != pos {
            assert(edge_ok(counts, p));
        }
    }
    assert forall|p: int|
        #![trigger after[p]]
        0 < p < after.len() && child > 0 && parent(p) == child implies after[parent(child)]
        <= after[p] by {
        assert(edge_ok(counts, p));
    }
}

/// The place of a slot of the heap is the one position that holds it.
pub proof fn lemma_place_of(heap: Seq<int>, n: int, p: int)
    requires
        ranking::is_arrangement(heap, 0, n),
        0 <= p < n,
    ensures
        place_of(heap, heap[p]) == p,
{
    let q = place_of(heap, heap[p]);
    assert(0 <= q < heap.len() && heap[q] == heap[p]);
}

/// Every slot has a place.
pub proof fn lemma_has_place(heap: Seq<int>, n: int, slot: int)
    requires
        ranking::is_arrangement(heap, 0, n),
        0 <= slot < n,
    ensures
        0 <= place_of(heap, slot) < n,
        heap[place_of(heap, slot)] == slot,
{
    assert(heap.contains(slot));
    let p = choose|p: int| 0 <= p < heap.len() && heap[p] == slot;
    assert(heap[p] == slot);
}

/// Exchanging two positions rearranges the same slots.
pub proof fn lemma_swapped(heap: Seq<int>, counts: Seq<u64>, n: int, i: int, j: int)
    requires
        ranking::is_arrangement(heap, 0, n),
        0 <= i < n,
        0 <= j < n,
    ensures
        ranking::is_arrangement(swapped(heap, i, j), 0, n),
        levels(swapped(heap, i, j), counts) == swapped(levels(heap, counts), i, j),
{
    let after = swapped(heap, i, j);
    assert forall|k: int| 0 <= k < n implies #[trigger] after.contains(k) by {
        lemma_has_place(heap, n, k);
        let p = place_of(heap, k);
        let q = if p == i {
            j
        } else if p == j {
            i
        } else {
            p
        };
        assert(after[q] == k);
    }
    assert forall|a: int, b: int|
        0 <= a < after.len() && 0 <= b < after.len() && #[trigger] after[a]
            == #[trigger] after[b] implies a == b by {
        let a0 = if a == i {
            j
        } else if a == j {
            i
        } else {
            a
        };
        let b0 = if b == i {
            j
        } else if b == j {
            i
        } else {
            b
        };
        assert(heap[a0] == after[a]);
        assert(heap[b0] == after[b]);
    }
    assert(levels(after, counts) =~= swapped(levels(heap, counts), i, j));
}

/// Sinking the one slot that may be out of order leaves it out of order with the
/// slot above it at most.
pub proof fn lemma_lowered(heap: Seq<int>, counts: Seq<u64>, n: int, pos: int)
    requires
        ranking::is_arrangement(heap, 0, n),
        0 <= pos < n,
        ordered_but_at(levels(heap, counts), pos),
    ensures
        ranking::is_arrangement(lowered(heap, counts, pos), 0, n),
        ordered_but_above(levels(lowered(heap, counts, pos), counts), pos),
        pos == 0 || edge_ok(levels(heap, counts), pos) ==> heap_ordered(
            levels(lowered(heap, counts, pos), counts),
        ),
    decreases n - pos,
{
    let before = levels(heap, counts);
    let least = least_of(before, pos);
    assert forall|p: int|
        #![trigger before[p]]
        0 < p < before.len() && parent(p) == pos implies before[least] <= before[p] by {
        assert(p == 2 * pos + 1 || p == 2 * pos + 2);
    }
    if pos < least {
        lemma_swapped(heap, counts, n, pos, least);
        lemma_swap_down(before, pos, least);
        lemma_lowered(swapped(heap, pos, least), counts, n, least);
        let after = levels(lowered(heap, counts, pos), counts);
        assert(heap_ordered(after));
        assert forall|p: int|
            #![trigger after[p]]
            0 < p < after.len() && pos > 0 && parent(p) == pos implies after[parent(pos)]
            <= after[p] by {
            assert(edge_ok(after, p));
            assert(edge_ok(after, pos));
        }
    } else {
        assert forall|p: int| 0 < p < before.len() && p != pos implies #[trigger] edge_ok(
            before,
            p,
        ) by {
            assert(parent(p) == pos ==> before[pos] <= before[p]);
        }
    }
}

/// Raising the one slot that may be out of order with the slot above it restores
/// the order.
pub proof fn lemma_raised(heap: Seq<int>, counts: Seq<u64>, n: int, pos: int)
    requires
        ranking::is_arrangement(heap, 0, n),
        0 <= pos < n,
        ordered_but_above(levels(heap, counts), pos),
    ensures
        ranking::is_arrangement(raised(heap, counts, pos), 0, n),
        heap_ordered(levels(raised(heap, counts, pos), counts)),
    decreases pos,
{
    let before = levels(heap, counts);
    if pos > 0 {
        if before[parent(pos)] > before[pos] {
            lemma_swapped(heap, counts, n, parent(pos), pos);
            lemma_swap_up(before, pos);
            lemma_raised(swapped(heap, parent(pos), pos), counts, n, parent(pos));
        } else {
            assert(edge_ok(before, pos));
        }
    }
}

/// Sifting a position of an ordered heap changes nothing.
pub proof fn lemma_sifting_idles(heap: Seq<int>, counts: Seq<u64>, pos: int)
    requires
        0 <= pos < heap.len(),
        heap_ordered(levels(heap, counts)),
    ensures
        lowered(heap, counts, pos) == heap,
        raised(heap, counts, pos) == heap,
{
    let counts_at = levels(heap, counts);
    if pos > 0 {
        assert(edge_ok(counts_at, pos));
    }
    if 2 * pos + 1 < heap.len() {
        assert(edge_ok(counts_at, 2 * pos + 1));
    }
    if 2 * pos + 2 < heap.len() {
        assert(edge_ok(counts_at, 2 * pos + 2));
    }
}

/// `after` is `before` with the slot at `pos` moved down. What moved up into its
/// trail had a smaller count than it, and none larger than the slot beside it; of
/// two with equal counts the left one moved.
pub open spec fn sank(before: Seq<int>, after: Seq<int>, counts: Seq<u64>, pos: int) -> bool {
    &&& after.len() == before.len()
    &&& forall|q: int| 0 <= q < pos ==> #[trigger] after[q] == before[q]
    &&& forall|q: int|
        0 <= q < before.len() ==> {
            ||| #[trigger] after[q] == before[q]
            ||| after[q] == before[pos]
            ||| {
                &&& 2 * q + 1 < before.len()
                &&& after[q] == before[2 * q + 1]
                &&& counts[before[2 * q + 1]] < counts[before[pos]]
                &&& 2 * q + 2 < before.len() ==> counts[before[2 * q + 1]] <= counts[before[2 * q
                    + 2]]
            }
            ||| {
                &&& 2 * q + 2 < before.len()
                &&& after[q] == before[2 * q + 2]
                &&& counts[before[2 * q + 2]] < counts[before[pos]]
                &&& counts[before[2 * q + 2]] < counts[before[2 * q + 1]]
            }
        }
}

/// `after` is `before` with the slot at `pos` moved up. What moved down into its
/// trail had a larger count than it.
pub open spec fn rose(before: Seq<int>, after: Seq<int>, counts: Seq<u64>, pos: int) -> bool {
    &&& after.len() == before.len()
    &&& forall|q: int| pos < q < before.len() ==> #[trigger] after[q] == before[q]
    &&& forall|q: int|
        0 <= q < before.len() ==> {
            ||| #[trigger] after[q] == before[q]
            ||| after[q] == before[pos]
            ||| {
                &&& q > 0
                &&& after[q] == before[(q - 1) / 2]
                &&& counts[before[(q - 1) / 2]] > counts[before[pos]]
            }
        }
}

/// Sinking a slot moves smaller counts up along its trail, the left one where two
/// are equal, and nothing else.
pub proof fn law_lowered_sinks(heap: Seq<int>, counts: Seq<u64>, pos: int)
    requires
        0 <= pos < heap.len(),
    ensures
        sank(heap, lowered(heap, counts, pos), counts, pos),
        ({
            let after = lowered(heap, counts, pos);
            &&& after.len() == heap.len()
            &&& forall|q: int| 0 <= q < pos ==> #[trigger] after[q] == heap[q]
            &&& forall|q: int|
                0 <= q < heap.len() && #[trigger] after[q] != heap[q] && after[q] != heap[pos] ==> {
                    let left = 2 * q + 1;
                    let right = 2 * q + 2;
                    ||| {
                        &&& left < heap.len()
                        &&& after[q] == heap[left]
                        &&& counts[heap[left]] < counts[heap[pos]]
                        &&& right < heap.len() ==> counts[heap[left]] <= counts[heap[right]]
                    }
                    ||| {
                        &&& right < heap.len()
                        &&& after[q] == heap[right]
                        &&& counts[heap[right]] < counts[heap[pos]]
                        &&& counts[heap[right]] < counts[heap[left]]
                    }
                }
        }),
    decreases heap.len() - pos,
{
    let at = levels(heap, counts);
    let least = least_of(at, pos);
    if pos < least {
        let next = swapped(heap, pos, least);
        law_lowered_sinks(next, counts, least);
        let after = lowered(heap, counts, pos);
        assert(after == lowered(next, counts, least));
        assert forall|q: int| 0 <= q < pos implies #[trigger] after[q] == heap[q] by {
            assert(after[q] == next[q]);
        }
        assert forall|q: int| 0 <= q < heap.len() implies {
            ||| #[trigger] after[q] == heap[q]
            ||| after[q] == heap[pos]
            ||| {
                &&& 2 * q + 1 < heap.len()
                &&& after[q] == heap[2 * q + 1]
                &&& counts[heap[2 * q + 1]] < counts[heap[pos]]
                &&& 2 * q + 2 < heap.len() ==> counts[heap[2 * q + 1]] <= counts[heap[2 * q + 2]]
            }
            ||| {
                &&& 2 * q + 2 < heap.len()
                &&& after[q] == heap[2 * q + 2]
                &&& counts[heap[2 * q + 2]] < counts[heap[pos]]
                &&& counts[heap[2 * q + 2]] < counts[heap[2 * q + 1]]
            }
        } by {
            if q < least {
                assert(after[q] == next[q]);
            } else {
                assert(next[least] == heap[pos]);
                if 2 * q + 1 < heap.len() {
                    assert(next[2 * q + 1] == heap[2 * q + 1]);
                }
                if 2 * q + 2 < heap.len() {
                    assert(next[2 * q + 2] == heap[2 * q + 2]);
                }
            }
        }
    }
}

/// Raising a slot moves larger counts down along its trail, and nothing else.
pub proof fn law_raised_rises(heap: Seq<int>, counts: Seq<u64>, pos: int)
    requires
        0 <= pos < heap.len(),
    ensures
        rose(heap, raised(heap, counts, pos), counts, pos),
        ({
            let after = raised(heap, counts, pos);
            &&& after.len() == heap.len()
            &&& forall|q: int| pos < q < heap.len() ==> #[trigger] after[q] == heap[q]
            &&& forall|q: int|
                0 <= q < heap.len() && #[trigger] after[q] != heap[q] && after[q] != heap[pos] ==> {
                    &&& q > 0
                    &&& after[q] == heap[(q - 1) / 2]
                    &&& counts[heap[(q - 1) / 2]] > counts[heap[pos]]
                }
        }),
    decreases pos,
{
    let at = levels(heap, counts);
    if pos > 0 && at[parent(pos)] > at[pos] {
        let up = parent(pos);
        let next = swapped(heap, up, pos);
        law_raised_rises(next, counts, up);
        let after = raised(heap, counts, pos);
        assert(after == raised(next, counts, up));
        assert forall|q: int| pos < q < heap.len() implies #[trigger] after[q] == heap[q] by {
            assert(after[q] == next[q]);
        }
        assert forall|q: int| 0 <= q < heap.len() implies {
            ||| #[trigger] after[q] == heap[q]
            ||| after[q] == heap[pos]
            ||| {
                &&& q > 0
                &&& after[q] == heap[(q - 1) / 2]
                &&& counts[heap[(q - 1) / 2]] > counts[heap[pos]]
            }
        } by {
            if q > up {
                assert(after[q] == next[q]);
            } else {
                assert(next[up] == heap[pos]);
                if q > 0 {
                    assert(next[(q - 1) / 2] == heap[(q - 1) / 2]);
                }
            }
        }
    }
}

/// The heap that a caller is shown names the same slots as the model's.
pub proof fn law_slot_numbers(slots: Seq<u32>)
    ensures
        slot_numbers(slots).len() == slots.len(),
        forall|p: int| 0 <= p < slots.len() ==> #[trigger] slot_numbers(slots)[p] == slots[p],
{
}

}
