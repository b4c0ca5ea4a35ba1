//! The queue as mathematics: the tracked entries in slot order, the heap of their
//! slots, and what each operation makes of them.

use crate::hashing::Item;
use crate::heap;
use crate::ranking;
use vstd::prelude::*;

verus! {

/// A tracked item, its count, and the turn at which it was inserted.
pub struct Entry<T> {
    pub item: T,
    pub count: u64,
    pub sequence: u32,
}

/// The entries in slot order, the slots in heap order, the largest number of
/// entries, and the turn of the latest insertion.
#[verifier::ext_equal]
pub struct QueueModel<T> {
    pub entries: Seq<Entry<T>>,
    pub heap: Seq<int>,
    pub capacity: nat,
    pub sequence: u32,
}

/// The turn after `sequence`; turns wrap around.
pub open spec fn next_turn(sequence: u32) -> u32 {
    if sequence == u32::MAX {
        0
    } else {
        (sequence + 1) as u32
    }
}

/// A list of borrowed items and their counts, by value.
pub open spec fn pairs<T>(items: Seq<(&T, u64)>) -> Seq<(T, u64)> {
    Seq::new(items.len(), |k: int| (*items[k].0, items[k].1))
}

impl<T: Item> QueueModel<T> {
    /// The queue that tracks nothing.
    pub open spec fn fresh(capacity: nat) -> Self {
        QueueModel { entries: Seq::empty(), heap: Seq::empty(), capacity, sequence: 0 }
    }

    /// Slot `i` tracks the item with this key.
    pub open spec fn tracks_at(self, i: int, key: Seq<u8>) -> bool {
        0 <= i < self.entries.len() && self.entries[i].item.key() == key
    }

    /// Some slot tracks the item with this key.
    pub open spec fn tracks(self, key: Seq<u8>) -> bool {
        exists|i: int| #[trigger] self.tracks_at(i, key)
    }

    /// The slot that tracks the item with this key.
    pub open spec fn slot_of(self, key: Seq<u8>) -> int {
        choose|i: int| #[trigger] self.tracks_at(i, key)
    }

    /// The count of the item with this key, if it is tracked.
    pub open spec fn count_of(self, key: Seq<u8>) -> Option<u64> {
        if self.tracks(key) {
            Some(self.entries[self.slot_of(key)].count)
        } else {
            None
        }
    }

    /// No item is tracked twice.
    pub open spec fn distinct_keys(self) -> bool {
        forall|i: int, j: int|
            0 <= i < self.entries.len() && 0 <= j < self.entries.len() && (
            #[trigger] self.entries[i]).item.key() == (#[trigger] self.entries[j]).item.key()
                ==> i == j
    }

    /// The counts of the slots.
    pub open spec fn counts(self) -> Seq<u64> {
        Seq::new(self.entries.len(), |i: int| self.entries[i].count)
    }

    /// The heap holds every slot once, and no slot has a smaller count than the
    /// one above it.
    pub open spec fn heap_valid(self) -> bool {
        &&& ranking::is_arrangement(self.heap, 0, self.entries.len() as int)
        &&& heap::heap_ordered(heap::levels(self.heap, self.counts()))
    }

    /// No item is tracked twice, no more are tracked than the capacity allows, and
    /// the heap is in order.
    pub open spec fn valid(self) -> bool {
        &&& self.distinct_keys()
        &&& self.entries.len() <= self.capacity
        &&& self.heap_valid()
    }

    /// No entry has a smaller count than that of slot `i`.
    pub open spec fn is_least(self, i: int) -> bool {
        &&& 0 <= i < self.entries.len()
        &&& forall|j: int|
            0 <= j < self.entries.len() ==> self.entries[i].count <= (
            #[trigger] self.entries[j]).count
    }

    /// The slot that a full queue gives up first: the root of the heap.
    pub open spec fn victim(self) -> int {
        self.heap[0]
    }

    /// The queue with the count of slot `i` replaced. The slot sinks and then rises
    /// in the heap, as far as its new count takes it.
    pub open spec fn recounted(self, i: int, count: u64) -> Self {
        let place = heap::place_of(self.heap, i);
        let counts = self.counts().update(i, count);
        QueueModel {
            entries: self.entries.update(
                i,
                Entry {
                    item: self.entries[i].item,
                    count,
                    sequence: self.entries[i].sequence,
                },
            ),
            heap: heap::raised(heap::lowered(self.heap, counts, place), counts, place),
            ..self
        }
    }

    /// The queue after the item with this key was updated to `count`, if it is
    /// tracked.
    pub open spec fn updated(self, key: Seq<u8>, count: u64) -> Self {
        if self.tracks(key) {
            self.recounted(self.slot_of(key), count)
        } else {
            self
        }
    }

    /// The queue with a new entry in a slot of its own, which rises from the end of
    /// the heap.
    pub open spec fn extended(self, item: T, count: u64) -> Self {
        let turn = next_turn(self.sequence);
        let slot = self.entries.len() as int;
        QueueModel {
            entries: self.entries.push(Entry { item, count, sequence: turn }),
            heap: heap::raised(self.heap.push(slot), self.counts().push(count), slot),
            sequence: turn,
            ..self
        }
    }

    /// The queue with a new entry in place of that at the root of the heap, which
    /// sinks from there.
    pub open spec fn displaced(self, item: T, count: u64) -> Self {
        let turn = next_turn(self.sequence);
        QueueModel {
            entries: self.entries.update(self.victim(), Entry { item, count, sequence: turn }),
            heap: heap::lowered(self.heap, self.counts().update(self.victim(), count), 0),
            sequence: turn,
            ..self
        }
    }

    /// A full queue gives up its victim for a new item with this count.
    pub open spec fn displaces(self, key: Seq<u8>, count: u64) -> bool {
        &&& !self.tracks(key)
        &&& self.entries.len() >= self.capacity
        &&& self.entries.len() > 0
        &&& count > self.entries[self.victim()].count
    }

    /// The queue after `item` was inserted or updated to `count`.
    pub open spec fn upserted(self, item: T, count: u64) -> Self {
        if self.tracks(item.key()) {
            self.recounted(self.slot_of(item.key()), count)
        } else if self.entries.len() < self.capacity {
            self.extended(item, count)
        } else if self.displaces(item.key(), count) {
            self.displaced(item, count)
        } else {
            self
        }
    }

    /// The item that this insertion displaces, if any.
    pub open spec fn evicted_by(self, item: T, count: u64) -> Option<T> {
        if self.displaces(item.key(), count) {
            Some(self.entries[self.victim()].item)
        } else {
            None
        }
    }

    /// Slot `i` is listed no later than slot `j`: the larger count first, among
    /// equal counts the earlier turn, and among equal turns the slots in order.
    pub open spec fn outranks(self, i: int, j: int) -> bool {
        let a = self.entries[i];
        let b = self.entries[j];
        a.count > b.count || (a.count == b.count && (a.sequence < b.sequence || (a.sequence
            == b.sequence && i <= j)))
    }

    /// `order` lists every slot once, by count from the largest down and among
    /// equal counts by turn.
    pub open spec fn is_ranking(self, order: Seq<int>) -> bool {
        &&& ranking::is_arrangement(order, 0, self.entries.len() as int)
        &&& forall|j: int, k: int|
            0 <= j <= k < order.len() ==> self.outranks(
                #[trigger] order[j],
                #[trigger] order[k],
            )
    }

    /// Slot `i` was filled no later than slot `j`; among equal turns the slots come
    /// in order.
    pub open spec fn no_younger(self, i: int, j: int) -> bool {
        let a = self.entries[i];
        let b = self.entries[j];
        a.sequence < b.sequence || (a.sequence == b.sequence && i <= j)
    }

    /// `order` lists every slot once, by turn.
    pub open spec fn is_turn_order(self, order: Seq<int>) -> bool {
        &&& ranking::is_arrangement(order, 0, self.entries.len() as int)
        &&& forall|j: int, k: int|
            0 <= j <= k < order.len() ==> self.no_younger(
                #[trigger] order[j],
                #[trigger] order[k],
            )
    }

    /// The items and counts of the listed slots.
    pub open spec fn listed(self, order: Seq<int>) -> Seq<(T, u64)> {
        Seq::new(
            order.len(),
            |k: int| (self.entries[order[k]].item, self.entries[order[k]].count),
        )
    }

    /// In a valid queue the slot of a key is the only one that tracks it.
    pub proof fn lemma_slot_of(self, i: int, key: Seq<u8>)
        requires
            self.distinct_keys(),
            self.tracks_at(i, key),
        ensures
            self.tracks(key),
            self.slot_of(key) == i,
            self.count_of(key) == Some(self.entries[i].count),
    {
        let j = self.slot_of(key);
        assert(self.tracks_at(j, key));
        assert(self.entries[i].item.key() == self.entries[j].item.key());
    }

    /// The root of the heap has a least count.
    pub proof fn lemma_victim_is_least(self)
        requires
            self.heap_valid(),
            self.entries.len() > 0,
        ensures
            self.is_least(self.victim()),
    {
        let n = self.entries.len() as int;
        let counts_at = heap::levels(self.heap, self.counts());
        assert(0 <= self.heap[0] < n);
        assert forall|j: int| 0 <= j < n implies self.entries[self.victim()].count <= (
        #[trigger] self.entries[j]).count by {
            heap::lemma_has_place(self.heap, n, j);
            let p = heap::place_of(self.heap, j);
            heap::lemma_root_is_least(counts_at, p);
            assert(counts_at[0] == self.counts()[self.heap[0]]);
            assert(counts_at[p] == self.counts()[j]);
        }
    }

    /// Replacing the count of one slot puts the heap out of order there at most,
    /// and not with the slot above where the count is no smaller.
    proof fn lemma_recount_place(self, i: int, count: u64)
        requires
            self.heap_valid(),
            0 <= i < self.entries.len(),
        ensures
            ({
                let place = heap::place_of(self.heap, i);
                let counts_at = heap::levels(self.heap, self.counts().update(i, count));
                &&& 0 <= place < self.entries.len()
                &&& self.heap[place] == i
                &&& heap::ordered_but_at(counts_at, place)
                &&& count >= self.entries[i].count && place > 0 ==> heap::edge_ok(counts_at, place)
            }),
    {
        let n = self.entries.len() as int;
        heap::lemma_has_place(self.heap, n, i);
        let place = heap::place_of(self.heap, i);
        let before = heap::levels(self.heap, self.counts());
        let after = heap::levels(self.heap, self.counts().update(i, count));
        assert(after =~= before.update(place, count)) by {
            assert forall|p: int| 0 <= p < n implies #[trigger] after[p] == before.update(
                place,
                count,
            )[p] by {
                assert(0 <= self.heap[p] < n);
                if self.heap[p] == i {
                    assert(self.heap[p] == self.heap[place]);
                }
            }
        }
        assert forall|p: int|
            0 < p < after.len() && p != place && heap::parent(p) != place implies
            #[trigger] heap::edge_ok(after, p) by {
            assert(heap::edge_ok(before, p));
        }
        assert forall|p: int|
            #![trigger after[p]]
            0 < p < after.len() && place > 0 && heap::parent(p) == place implies after[heap::parent(
            place,
        )] <= after[p] by {
            assert(heap::edge_ok(before, p));
            assert(heap::edge_ok(before, place));
        }
        if place > 0 {
            assert(heap::edge_ok(before, place));
        }
    }

    /// Replacing a count keeps the heap valid.
    pub proof fn lemma_recounted_heap(self, i: int, count: u64)
        requires
            self.heap_valid(),
            0 <= i < self.entries.len(),
        ensures
            self.recounted(i, count).heap_valid(),
            self.recounted(i, count).counts() == self.counts().update(i, count),
    {
        let n = self.entries.len() as int;
        let place = heap::place_of(self.heap, i);
        let counts = self.counts().update(i, count);
        self.lemma_recount_place(i, count);
        heap::lemma_lowered(self.heap, counts, n, place);
        heap::lemma_raised(heap::lowered(self.heap, counts, place), counts, n, place);
        assert(self.recounted(i, count).counts() =~= counts);
    }

    /// A slot whose count does not fall need only sink.
    pub proof fn lemma_raised_count(self, i: int, count: u64)
        requires
            self.heap_valid(),
            0 <= i < self.entries.len(),
            count >= self.entries[i].count,
        ensures
            self.recounted(i, count).heap == heap::lowered(
                self.heap,
                self.counts().update(i, count),
                heap::place_of(self.heap, i),
            ),
    {
        let n = self.entries.len() as int;
        let place = heap::place_of(self.heap, i);
        let counts = self.counts().update(i, count);
        self.lemma_recount_place(i, count);
        heap::lemma_lowered(self.heap, counts, n, place);
        heap::lemma_sifting_idles(heap::lowered(self.heap, counts, place), counts, place);
    }

    /// A slot whose count does not grow need only rise.
    pub proof fn lemma_lowered_count(self, i: int, count: u64)
        requires
            self.heap_valid(),
            0 <= i < self.entries.len(),
            count <= self.entries[i].count,
        ensures
            self.recounted(i, count).heap == heap::raised(
                self.heap,
                self.counts().update(i, count),
                heap::place_of(self.heap, i),
            ),
    {
        let place = heap::place_of(self.heap, i);
        let counts = self.counts().update(i, count);
        self.lemma_recount_place(i, count);
        let before = heap::levels(self.heap, self.counts());
        let after = heap::levels(self.heap, counts);
        assert(after[place] == count);
        assert forall|p: int| 0 < p < after.len() && heap::parent(p) == place implies count
            <= #[trigger] after[p] by {
            assert(heap::edge_ok(before, p));
            assert(0 <= self.heap[p] < self.entries.len());
            assert(before[place] == self.entries[i].count);
            assert(self.heap[p] != i);
        }
        if 2 * place + 1 < after.len() {
            assert(heap::parent(2 * place + 1) == place);
            assert(after[2 * place + 1] >= count);
        }
        if 2 * place + 2 < after.len() {
            assert(heap::parent(2 * place + 2) == place);
            assert(after[2 * place + 2] >= count);
        }
        assert(heap::least_of(after, place) == place);
        assert(heap::lowered(self.heap, counts, place) == self.heap);
    }

    /// Replacing a count by itself changes nothing.
    pub proof fn lemma_same_count(self, i: int)
        requires
            self.heap_valid(),
            0 <= i < self.entries.len(),
        ensures
            self.recounted(i, self.entries[i].count) == self,
    {
        let count = self.entries[i].count;
        assert(self.counts().update(i, count) =~= self.counts());
        self.lemma_recount_place(i, count);
        heap::lemma_sifting_idles(self.heap, self.counts(), heap::place_of(self.heap, i));
        assert(self.recounted(i, count) =~= self);
    }

    /// A new slot keeps the heap valid.
    pub proof fn lemma_extended_heap(self, item: T, count: u64)
        requires
            self.heap_valid(),
        ensures
            self.extended(item, count).heap_valid(),
            self.extended(item, count).counts() == self.counts().push(count),
    {
        let n = self.entries.len() as int;
        let counts = self.counts().push(count);
        let grown = self.heap.push(n);
        assert(ranking::is_arrangement(grown, 0, n + 1)) by {
            assert forall|i: int| 0 <= i < n + 1 implies #[trigger] grown.contains(i) by {
                if i < n {
                    heap::lemma_has_place(self.heap, n, i);
                    assert(grown[heap::place_of(self.heap, i)] == i);
                } else {
                    assert(grown[n] == i);
                }
            }
        }
        let before = heap::levels(self.heap, self.counts());
        let after = heap::levels(grown, counts);
        assert forall|p: int| 0 <= p < n implies #[trigger] after[p] == before[p] by {
            assert(0 <= self.heap[p] < n);
        }
        assert forall|p: int| 0 < p < after.len() && p != n implies #[trigger] heap::edge_ok(
            after,
            p,
        ) by {
            assert(heap::edge_ok(before, p));
        }
        heap::lemma_raised(grown, counts, n + 1, n);
        assert(self.extended(item, count).counts() =~= counts);
    }

    /// A new entry at the root keeps the heap valid.
    pub proof fn lemma_displaced_heap(self, item: T, count: u64)
        requires
            self.heap_valid(),
            self.entries.len() > 0,
        ensures
            self.displaced(item, count).heap_valid(),
            self.displaced(item, count).counts() == self.counts().update(self.victim(), count),
    {
        let n = self.entries.len() as int;
        let v = self.victim();
        assert(0 <= self.heap[0] < n);
        heap::lemma_place_of(self.heap, n, 0);
        self.lemma_recount_place(v, count);
        heap::lemma_lowered(self.heap, self.counts().update(v, count), n, 0);
        assert(self.displaced(item, count).counts() =~= self.counts().update(v, count));
    }

    /// Inserting or updating an item keeps the queue valid: no item is ever
    /// tracked twice, the capacity is never exceeded, and the heap stays in order.
    pub proof fn lemma_upserted_valid(self, item: T, count: u64)
        requires
            self.valid(),
        ensures
            self.upserted(item, count).valid(),
            self.upserted(item, count).capacity == self.capacity,
            self.upserted(item, count).entries.len() >= self.entries.len(),
    {
        let after = self.upserted(item, count);
        let key = item.key();
        if self.tracks(key) {
            self.lemma_updated_valid(key, count);
        } else {
            assert forall|i: int| 0 <= i < self.entries.len() implies (
            #[trigger] self.entries[i]).item.key() != key by {
                if self.entries[i].item.key() == key {
                    assert(self.tracks_at(i, key));
                }
            }
            if self.entries.len() < self.capacity {
                self.lemma_extended_heap(item, count);
            } else if self.displaces(key, count) {
                assert(0 <= self.heap[0] < self.entries.len());
                self.lemma_displaced_heap(item, count);
            }
        }
    }

    /// Updating an item keeps the queue valid.
    pub proof fn lemma_updated_valid(self, key: Seq<u8>, count: u64)
        requires
            self.valid(),
        ensures
            self.updated(key, count).valid(),
    {
        let after = self.updated(key, count);
        if self.tracks(key) {
            let slot = self.slot_of(key);
            assert(self.tracks_at(slot, key));
            self.lemma_recounted_heap(slot, count);
            assert forall|i: int, j: int|
                0 <= i < after.entries.len() && 0 <= j < after.entries.len() && (
                #[trigger] after.entries[i]).item.key() == (
                #[trigger] after.entries[j]).item.key() implies i == j by {
                assert(after.entries[i].item == self.entries[i].item);
                assert(after.entries[j].item == self.entries[j].item);
            }
        }
    }
}

}
