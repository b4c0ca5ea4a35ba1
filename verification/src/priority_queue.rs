//! The top-k queue: a min-heap over slots, with a hash table to find them.

use crate::hashing;
use crate::hashing::{Item, Matches};
use crate::heap;
use crate::memory;
use crate::memory::Reallocator;
use crate::model;
use crate::model::{Entry, QueueModel};
use crate::probing;
use crate::probing::EMPTY;
use crate::ranking;
use ahash::RandomState;
use vstd::prelude::*;

verus! {

/// A tracked item with its count, its turn, and its place in the heap.
pub struct Slot<T> {
    item: T,
    count: u64,
    sequence: u32,
    heap_pos: u32,
}

/// A specialized min-heap priority queue for HeavyKeeper's top-k tracking.
///
/// Items are stored **once** in a dense `slots` array. A `Vec<u32>` binary
/// heap (of slot indices, ordered by count) provides O(1) min and O(log k)
/// insert/update. An open-addressing hash table provides O(1) lookup.
pub struct TopKQueue<T> {
    slots: Vec<Slot<T>>,
    heap: Vec<u32>,
    table: Vec<u32>,
    table_mask: u32,
    capacity: usize,
    len: usize,
    sequence: u32,
    hasher: RandomState,
}

impl<T: Item> View for TopKQueue<T> {
    type V = QueueModel<T>;

    closed spec fn view(&self) -> QueueModel<T> {
        QueueModel {
            entries: self.entries(),
            heap: heap::slot_numbers(self.heap@),
            capacity: self.capacity as nat,
            sequence: self.sequence,
        }
    }
}

impl<T: Item> TopKQueue<T> {
    spec fn entries(self) -> Seq<Entry<T>> {
        Seq::new(
            self.slots@.len(),
            |i: int|
                Entry {
                    item: self.slots@[i].item,
                    count: self.slots@[i].count,
                    sequence: self.slots@[i].sequence,
                },
        )
    }

    /// The number of buckets in use.
    spec fn buckets(self) -> int {
        self.table_mask + 1
    }

    /// The home bucket of an item with this key.
    spec fn home(self, key: Seq<u8>) -> int {
        probing::bucket_of(hashing::hash_of(self.hasher, key), self.table_mask)
    }

    /// The home buckets of the slots.
    spec fn homes(self) -> Seq<int> {
        Seq::new(self.slots@.len(), |i: int| self.home(self.slots@[i].item.key()))
    }

    /// Lengths agree, slot indices fit below the mark of an empty bucket, and the
    /// ring of buckets has room for every slot.
    spec fn shaped(self) -> bool {
        &&& self.len == self.slots@.len()
        &&& self.len == self.heap@.len()
        &&& self.len <= self.capacity
        &&& self.len <= EMPTY
        &&& probing::fits_table(self.capacity as int)
        &&& probing::is_low_mask(self.table_mask)
        &&& self.buckets() <= self.table@.len() <= usize::MAX
        &&& self.capacity < self.buckets() || self.table_mask == u32::MAX
        &&& probing::is_table_size(self.table@.len() as int, self.capacity as int)
    }

    /// Heap and slots point at each other.
    spec fn linked(self) -> bool {
        &&& forall|p: int|
            0 <= p < self.heap@.len() ==> {
                &&& (#[trigger] self.heap@[p]) < self.slots@.len()
                &&& self.slots@[self.heap@[p] as int].heap_pos == p
            }
        &&& forall|i: int|
            0 <= i < self.slots@.len() ==> {
                &&& (#[trigger] self.slots@[i]).heap_pos < self.heap@.len()
                &&& self.heap@[self.slots@[i].heap_pos as int] == i
            }
    }

    /// The hash table stores every slot where a probe finds it.
    spec fn indexed(self) -> bool {
        &&& probing::table_ok(self.table@, self.buckets(), self.homes())
        &&& forall|i: int|
            0 <= i < self.slots@.len() ==> #[trigger] probing::holds(
                self.table@,
                self.buckets(),
                i,
            )
    }

    /// The invariant that every operation keeps.
    pub closed spec fn wf(self) -> bool {
        &&& self.shaped()
        &&& self.linked()
        &&& self.indexed()
        &&& self@.valid()
    }

    /// The number of buckets in the hash table.
    pub closed spec fn table_len(self) -> nat {
        self.table@.len()
    }

    /// The state that items are hashed with.
    pub closed spec fn hash_state(self) -> RandomState {
        self.hasher
    }

    /// The heap position that slot `i` has on record.
    pub closed spec fn heap_pos(self, i: int) -> int {
        self.slots@[i].heap_pos as int
    }

    /// The slots may have room for `slot_room` of them, and the heap for
    /// `heap_room` positions: what `Vec::capacity` may give on each.
    pub closed spec fn has_rooms(self, slot_room: usize, heap_room: usize) -> bool {
        &&& memory::may_have_room(self.slots, slot_room)
        &&& memory::may_have_room(self.heap, heap_room)
    }

    /// There is room for as many slots and heap positions as the capacity allows,
    /// and for one more position.
    pub open spec fn is_roomy(self) -> bool {
        forall|slot_room: usize, heap_room: usize| #[trigger]
            self.has_rooms(slot_room, heap_room) ==> {
                &&& slot_room >= self@.capacity
                &&& heap_room >= self@.capacity + 1
            }
    }

    /// One allocation can hold as many slots as the capacity allows.
    pub open spec fn slots_fit(capacity: nat) -> bool {
        memory::fits_allocation(capacity, vstd::layout::size_of::<Slot<T>>())
    }

    /// Neither the slots nor the heap have room to spare.
    pub open spec fn is_trimmed(self) -> bool {
        forall|slot_room: usize, heap_room: usize| #[trigger]
            self.has_rooms(slot_room, heap_room) ==> {
                &&& vstd::layout::size_of::<Slot<T>>() > 0 ==> slot_room == self@.entries.len()
                &&& heap_room == self@.entries.len()
            }
    }

    /// The two queues differ in the order of the heap at most.
    spec fn same_but_heap(self, other: Self) -> bool {
        &&& self.entries() == other.entries()
        &&& self.table == other.table
        &&& self.table_mask == other.table_mask
        &&& self.capacity == other.capacity
        &&& self.len == other.len
        &&& self.sequence == other.sequence
        &&& self.hasher == other.hasher
    }

    /// An empty queue that tracks up to `capacity` items and hashes them with `hasher`.
    pub fn with_capacity_and_hasher(capacity: usize, hasher: RandomState) -> (queue: Self)
        requires
            probing::fits_table(capacity as int),
        ensures
            queue.wf(),
            queue@ == QueueModel::<T>::fresh(capacity as nat),
            queue.hash_state() == hasher,
            Self::slots_fit(capacity as nat) ==> queue.is_roomy(),
    {
        let table_size: usize = probing::table_size_for(capacity);
        let mut slots: Vec<Slot<T>> = Vec::new();
        memory::reserve(&mut slots, capacity);
        let mut heap: Vec<u32> = Vec::new();
        memory::reserve(&mut heap, capacity + 1);
        let queue = Self {
            slots,
            heap,
            table: vec![EMPTY; table_size],
            table_mask: probing::mask_for(table_size),
            capacity,
            len: 0,
            sequence: 0,
            hasher,
        };
        assert(queue@ =~= QueueModel::<T>::fresh(capacity as nat));
        queue
    }

    /// An empty queue that tracks up to `capacity` items, with a hasher of its own.
    pub fn with_capacity(capacity: usize) -> (queue: Self)
        requires
            probing::fits_table(capacity as int),
        ensures
            queue.wf(),
            queue@ == QueueModel::<T>::fresh(capacity as nat),
            Self::slots_fit(capacity as nat) ==> queue.is_roomy(),
    {
        Self::with_capacity_and_hasher(capacity, hashing::fresh_state())
    }

    /// The number of tracked items.
    pub fn len(&self) -> (len: usize)
        requires
            self.wf(),
        ensures
            len == self@.entries.len(),
    {
        self.len
    }

    /// The count of `item`, if it is tracked.
    pub fn get<Q: Item + ?Sized>(&self, item: &Q) -> (count: Option<u64>)
        where T: Matches<Q>
        requires
            self.wf(),
        ensures
            count == self@.count_of(item.key()),
    {
        match self.find_slot(item) {
            Some(i) => {
                proof {
                    self@.lemma_slot_of(i as int, item.key());
                }
                Some(self.slots[i].count)
            },
            None => None,
        }
    }

    /// Whether `item` is tracked.
    pub fn contains<Q: Item + ?Sized>(&self, item: &Q) -> (present: bool)
        where T: Matches<Q>
        requires
            self.wf(),
        ensures
            present == self@.tracks(item.key()),
    {
        self.find_slot(item).is_some()
    }

    /// Increase an existing entry's count. Caller must guarantee the new count
    /// is >= the current count (paper Algorithm 1: heap is max(maxv, existing)).
    pub fn update_if_present<Q: Item + ?Sized>(&mut self, item: &Q, count: u64) -> (present: bool)
        where T: Matches<Q>
        requires
            old(self).wf(),
            old(self)@.count_of(item.key()) matches Some(current) ==> count >= current,
        ensures
            final(self).wf(),
            present == old(self)@.tracks(item.key()),
            final(self)@ == old(self)@.updated(item.key(), count),
            final(self).hash_state() == old(self).hash_state(),
    {
        match self.find_slot(item) {
            Some(slot_idx) => {
                proof {
                    self@.lemma_slot_of(slot_idx as int, item.key());
                }
                if count == self.slots[slot_idx].count {
                    proof {
                        self@.lemma_same_count(slot_idx as int);
                    }
                    return true;
                }
                let ghost before = *self;
                let heap_pos: usize = self.slots[slot_idx].heap_pos as usize;
                self.slots[slot_idx].count = count;
                proof {
                    self.lemma_recounted(before, slot_idx as int, count);
                }
                self.sift_down(heap_pos);
                proof {
                    before@.lemma_raised_count(slot_idx as int, count);
                    before@.lemma_updated_valid(item.key(), count);
                    assert(self@ =~= before@.recounted(slot_idx as int, count));
                    self.lemma_same_homes(before);
                }
                true
            },
            None => false,
        }
    }

    /// The smallest count that is tracked, or 0 where nothing is.
    pub fn min_count(&self) -> (count: u64)
        requires
            self.wf(),
        ensures
            self@.entries.len() == 0 ==> count == 0,
            self@.entries.len() > 0 ==> self@.is_least(self@.victim()) && count
                == self@.entries[self@.victim()].count,
    {
        if self.len == 0 {
            0
        } else {
            proof {
                self@.lemma_victim_is_least();
            }
            self.slots[self.heap[0] as usize].count
        }
    }

    /// Whether a new item would have to displace another.
    pub fn is_full(&self) -> (full: bool)
        requires
            self.wf(),
        ensures
            full == (self@.entries.len() == self@.capacity),
    {
        self.len >= self.capacity
    }

    /// Insert or update `item` to `count`.
    ///
    /// Returns `Some(evicted)` when a previously tracked item is displaced
    /// by this call, otherwise `None`.
    pub fn upsert(&mut self, item: T, count: u64) -> (evicted: Option<T>)
        where T: Matches<T>
        requires
            old(self).wf(),
            old(self)@.entries.len() < u32::MAX || old(self)@.entries.len() == old(self)@.capacity
                || old(self)@.tracks(item.key()),
        ensures
            final(self).wf(),
            final(self)@ == old(self)@.upserted(item, count),
            evicted == old(self)@.evicted_by(item, count),
            old(self)@.entries.len() > 0 ==> old(self)@.is_least(old(self)@.victim()),
            final(self).hash_state() == old(self).hash_state(),
            !old(self)@.tracks(item.key()) && old(self)@.entries.len() < old(self)@.capacity
                && Self::slots_fit(old(self)@.capacity) ==> final(self).is_roomy(),
    {
        let ghost before = *self;
        let ghost victim = self@.victim();
        let ghost key = item.key();
        proof {
            if self.len > 0 {
                self@.lemma_victim_is_least();
            }
            self@.lemma_upserted_valid(item, count);
        }
        // Fast path: update existing item
        let hash: u64 = item.hash_with(&self.hasher);
        let existing: Option<usize> = self.find_slot_with_hash(&item, hash);
        if let Some(slot_idx) = existing {
            proof {
                self@.lemma_slot_of(slot_idx as int, key);
            }
            if count == self.slots[slot_idx].count {
                proof {
                    self@.lemma_same_count(slot_idx as int);
                }
                return None;
            }
            let heap_pos: usize = self.slots[slot_idx].heap_pos as usize;
            self.slots[slot_idx].count = count;
            proof {
                self.lemma_recounted(before, slot_idx as int, count);
            }
            self.sift_down(heap_pos);
            self.sift_up(heap_pos);
            proof {
                assert(self@ =~= before@.recounted(slot_idx as int, count));
                self.lemma_same_homes(before);
            }
            return None;
        }
        // New item: if we have space, just add it
        if self.len < self.capacity {
            self.make_room();

            let slot_idx: u32 = self.len as u32;
            let heap_pos: u32 = self.len as u32;
            self.sequence = self.sequence.wrapping_add(1);
            self.slots.push(Slot { item, count, sequence: self.sequence, heap_pos });
            self.heap.push(slot_idx);
            self.len += 1;
            proof {
                assert(self.slots@.drop_last() =~= before.slots@);
                self.lemma_pushed(before);
            }
            self.table_insert(hash, slot_idx);
            let ghost stored = *self;
            self.sift_up(heap_pos as usize);
            proof {
                assert(self@ =~= before@.extended(item, count));
                self.lemma_same_homes(stored);
            }
            // The pushes stayed within what was reserved, so this asks for nothing more.
            let ghost done = *self;
            self.make_room();
            proof {
                assert(self@ =~= done@);
                self.lemma_same_homes(done);
            }
            return None;
        }
        // Queue is full: check if new count beats minimum
        if self.len > 0 {
            let min_slot_idx: usize = self.heap[0] as usize;
            let min_count: u64 = self.slots[min_slot_idx].count;
            if count > min_count {
                let old_hash: u64 = self.slots[min_slot_idx].item.hash_with(&self.hasher);
                self.table_remove(old_hash, min_slot_idx as u32);
                let mut old_item: T = item;
                std::mem::swap(&mut self.slots[min_slot_idx].item, &mut old_item);
                self.slots[min_slot_idx].count = count;
                self.sequence = self.sequence.wrapping_add(1);
                self.slots[min_slot_idx].sequence = self.sequence;
                proof {
                    assert(self.slots@ =~= before.slots@.update(
                        victim,
                        Slot {
                            item,
                            count,
                            sequence: self.sequence,
                            heap_pos: before.slots@[victim].heap_pos,
                        },
                    ));
                    self.lemma_replaced(before);
                }
                self.table_insert(hash, min_slot_idx as u32);
                let ghost stored = *self;
                self.sift_down(0);
                proof {
                    assert(self@ =~= before@.displaced(item, count));
                    self.lemma_same_homes(stored);
                }
                return Some(old_item);
            }
        }
        None
    }

    /// Reserve the slots and heap positions that the capacity allows, where one
    /// allocation can hold them.
    fn make_room(&mut self)
        requires
            old(self).shaped(),
        ensures
            final(self).slots@ == old(self).slots@,
            final(self).heap@ == old(self).heap@,
            *final(self) == (TopKQueue {
                slots: final(self).slots,
                heap: final(self).heap,
                ..*old(self)
            }),
            Self::slots_fit(old(self).capacity as nat) ==> final(self).is_roomy(),
    {
        let room: usize = self.capacity + 1 - self.heap.len();
        memory::reserve(&mut self.heap, room);
        let room: usize = self.capacity - self.slots.len();
        memory::reserve(&mut self.slots, room);
    }

    /// The tracked items with their counts, largest count first and among equal
    /// counts in the order of insertion.
    pub fn iter(&self) -> (items: Vec<(&T, u64)>)
        requires
            self.wf(),
        ensures
            exists|order: Seq<int>|
                self@.is_ranking(order) && #[trigger] self@.listed(order) == model::pairs(items@),
    {
        let mut keys: Vec<(u64, u32)> = Vec::new();
        let mut i: usize = 0;
        while i < self.len
            invariant
                self.wf(),
                i <= self.len,
                keys@.len() == i,
                forall|k: int|
                    0 <= k < i ==> #[trigger] keys@[k] == (
                        (u64::MAX - self.slots@[k].count) as u64,
                        self.slots@[k].sequence,
                    ),
            decreases self.len - i,
        {
            keys.push((u64::MAX - self.slots[i].count, self.slots[i].sequence));
            i += 1;
        }
        let order: Vec<usize> = ranking::sort_range(&keys, 0, self.len);
        let ghost order_view = ranking::indices(order@);
        let items: Vec<(&T, u64)> = self.list(&order);
        proof {
            assert forall|j: int, k: int| 0 <= j <= k < order_view.len() implies self@.outranks(
                #[trigger] order_view[j],
                #[trigger] order_view[k],
            ) by {
                assert(ranking::precedes(keys@, order_view[j], order_view[k]));
            }
            assert(self@.is_ranking(order_view));
            assert(self@.listed(order_view) == model::pairs(items@));
        }
        items
    }

    /// The tracked items with their counts, in ascending insertion-`sequence` order.
    ///
    /// Serialization uses this so restore (re-`upsert` in this order) reassigns
    /// sequences that preserve the count-tie ordering.
    pub fn iter_by_sequence(&self) -> (items: Vec<(&T, u64)>)
        requires
            self.wf(),
        ensures
            exists|order: Seq<int>|
                self@.is_turn_order(order) && #[trigger] self@.listed(order) == model::pairs(items@),
    {
        let mut keys: Vec<(u64, u32)> = Vec::new();
        let mut i: usize = 0;
        while i < self.len
            invariant
                self.wf(),
                i <= self.len,
                keys@.len() == i,
                forall|k: int| 0 <= k < i ==> #[trigger] keys@[k] == (0u64, self.slots@[k].sequence),
            decreases self.len - i,
        {
            keys.push((0, self.slots[i].sequence));
            i += 1;
        }
        let order: Vec<usize> = ranking::sort_range(&keys, 0, self.len);
        let ghost order_view = ranking::indices(order@);
        let items: Vec<(&T, u64)> = self.list(&order);
        proof {
            assert forall|j: int, k: int| 0 <= j <= k < order_view.len() implies self@.no_younger(
                #[trigger] order_view[j],
                #[trigger] order_view[k],
            ) by {
                assert(ranking::precedes(keys@, order_view[j], order_view[k]));
            }
            assert(self@.is_turn_order(order_view));
            assert(self@.listed(order_view) == model::pairs(items@));
        }
        items
    }

    /// The items and counts of the listed slots.
    fn list(&self, order: &Vec<usize>) -> (items: Vec<(&T, u64)>)
        requires
            self.wf(),
            ranking::is_arrangement(ranking::indices(order@), 0, self.len as int),
        ensures
            model::pairs(items@) == self@.listed(ranking::indices(order@)),
    {
        let ghost order_view = ranking::indices(order@);
        let mut items: Vec<(&T, u64)> = Vec::new();
        let mut k: usize = 0;
        while k < order.len()
            invariant
                self.wf(),
                order_view == ranking::indices(order@),
                ranking::is_arrangement(order_view, 0, self.len as int),
                k <= order@.len(),
                items@.len() == k,
                forall|j: int|
                    0 <= j < k ==> #[trigger] model::pairs(items@)[j] == self@.listed(order_view)[j],
            decreases order@.len() - k,
        {
            assert(0 <= order_view[k as int] < self.len);
            let slot: usize = order[k];
            let ghost before = items@;
            items.push((&self.slots[slot].item, self.slots[slot].count));
            proof {
                assert forall|j: int| 0 <= j < k + 1 implies #[trigger] model::pairs(items@)[j]
                    == self@.listed(order_view)[j] by {
                    if j < k {
                        assert(model::pairs(before)[j] == self@.listed(order_view)[j]);
                    }
                }
            }
            k += 1;
        }
        assert(model::pairs(items@) =~= self@.listed(order_view));
        items
    }

    /// The slots in heap order: no slot has a smaller count than the one above it.
    pub fn heap(&self) -> (slots: &[u32])
        requires
            self.wf(),
        ensures
            heap::slot_numbers(slots@) == self@.heap,
            self@.heap_valid(),
    {
        self.heap.as_slice()
    }

    /// Returns the heap memory (in bytes) used by this queue's containers, or
    /// `None` where a `usize` cannot hold it.
    ///
    /// Computed from the allocated capacity of the slots, heap, and hash table,
    /// plus the heap each live item owns beyond its inline `size_of::<T>()`.
    /// `item_heap(t)` should return the bytes `t` points to (e.g.
    /// `String::capacity`).
    pub fn mem_bytes<F: Fn(&T) -> usize>(&self, item_heap: F) -> (bytes: Option<usize>)
        requires
            self.wf(),
            forall|i: int|
                0 <= i < self@.entries.len() ==> call_requires(
                    item_heap,
                    (&(#[trigger] self@.entries[i]).item,),
                ),
        ensures
            probing::is_table_size(self.table_len() as int, self@.capacity as int),
            exists|slot_room: usize, heap_room: usize, item_bytes: Seq<usize>|
                {
                    &&& self.has_rooms(slot_room, heap_room)
                    &&& item_bytes.len() == self@.entries.len()
                    &&& forall|i: int|
                        0 <= i < item_bytes.len() ==> call_ensures(
                            item_heap,
                            (&self@.entries[i].item,),
                            #[trigger] item_bytes[i],
                        )
                    &&& bytes == memory::fitting(
                        #[trigger] memory::queue_bytes(
                            slot_room as nat,
                            vstd::layout::size_of::<Slot<T>>(),
                            heap_room as nat,
                            self.table_len(),
                            vstd::layout::size_of::<u32>(),
                            item_bytes,
                        ),
                    )
                },
    {
        let mut item_bytes: Vec<usize> = Vec::new();
        let mut i: usize = 0;
        while i < self.len
            invariant
                self.wf(),
                forall|k: int|
                    0 <= k < self@.entries.len() ==> call_requires(
                        item_heap,
                        (&(#[trigger] self@.entries[k]).item,),
                    ),
                i <= self.len,
                item_bytes@.len() == i,
                forall|k: int|
                    0 <= k < i ==> call_ensures(
                        item_heap,
                        (&self@.entries[k].item,),
                        #[trigger] item_bytes@[k],
                    ),
            decreases self.len - i,
        {
            assert(self@.entries[i as int].item == self.slots@[i as int].item);
            item_bytes.push(item_heap(&self.slots[i].item));
            i += 1;
        }
        let slot_room: usize = memory::room_of(&self.slots);
        let heap_room: usize = memory::room_of(&self.heap);
        let bytes: Option<usize> = memory::total_bytes(
            slot_room,
            std::mem::size_of::<Slot<T>>(),
            heap_room,
            self.table.len(),
            std::mem::size_of::<u32>(),
            &item_bytes,
        );
        assert(bytes == memory::fitting(
            memory::queue_bytes(
                slot_room as nat,
                vstd::layout::size_of::<Slot<T>>(),
                heap_room as nat,
                self.table_len(),
                vstd::layout::size_of::<u32>(),
                item_bytes@,
            ),
        ));
        bytes
    }

    /// Relocate the `heap` and `slots` vectors, and the hash table, through
    /// `reallocator`. For `slots` only the outer buffer moves; any heap a `T`
    /// owns (e.g. a `Vec<u8>` key's bytes) stays put.
    pub fn realloc_large_heap_allocated_objects<R: Reallocator>(&mut self, reallocator: &mut R)
        requires
            old(self).wf(),
        ensures
            final(self).wf(),
            final(self)@ == old(self)@,
            final(self).hash_state() == old(self).hash_state(),
            final(self).table_len() == old(self).table_len(),
            final(self).is_trimmed(),
            probing::is_table_size(old(self).table_len() as int, old(self)@.capacity as int),
            final(reallocator).relocated() == old(reallocator).relocated() + seq![
                (old(self)@.entries.len(), vstd::layout::size_of::<u32>()),
                (old(self)@.entries.len(), vstd::layout::size_of::<Slot<T>>()),
                (old(self).table_len(), vstd::layout::size_of::<u32>()),
            ],
    {
        let ghost before = *self;
        let ghost moved = reallocator.relocated();
        memory::realloc_vec(&mut self.heap, reallocator);
        memory::realloc_vec(&mut self.slots, reallocator);
        memory::realloc_vec(&mut self.table, reallocator);
        proof {
            assert(self.entries() =~= before.entries());
            self.lemma_same_homes(before);
            assert(reallocator.relocated() =~= moved + seq![
                (before@.entries.len(), vstd::layout::size_of::<u32>()),
                (before@.entries.len(), vstd::layout::size_of::<Slot<T>>()),
                (before.table_len(), vstd::layout::size_of::<u32>()),
            ]);
        }
    }

    /// What the invariant says: no item is tracked twice, the capacity is not
    /// exceeded, the heap holds every slot once and in order, with a least count at
    /// the root, and each slot has its heap position on record.
    pub proof fn lemma_valid(self)
        requires
            self.wf(),
        ensures
            self@.valid(),
            self@.entries.len() <= u32::MAX,
            self@.entries.len() > 0 ==> self@.is_least(self@.victim()),
            forall|p: int| 0 <= p < self@.heap.len() ==> self.heap_pos(#[trigger] self@.heap[p]) == p,
    {
        if self.len > 0 {
            self@.lemma_victim_is_least();
        }
        assert forall|p: int| 0 <= p < self@.heap.len() implies self.heap_pos(
            #[trigger] self@.heap[p],
        ) == p by {
            assert(self.heap@[p] < self.slots@.len());
        }
    }

    /// The rooms of a queue are those of its slots and its heap, and its buckets those
    /// of its table.
    proof fn law_rooms(self, slot_room: usize, heap_room: usize)
        requires
            self.has_rooms(slot_room, heap_room),
        ensures
            memory::may_have_room(self.slots, slot_room),
            memory::may_have_room(self.heap, heap_room),
            self.table_len() == self.table@.len(),
            self.hash_state() == self.hasher,
    {
    }

    /// What the words on room say: a roomy queue has room for its capacity of slots
    /// and for one heap position more, a trimmed one for its entries alone, and slots
    /// fit where their bytes fit an `isize`.
    pub proof fn law_room_words(self, slot_room: usize, heap_room: usize, n: nat)
        requires
            self.has_rooms(slot_room, heap_room),
        ensures
            self.is_roomy() ==> slot_room >= self@.capacity && heap_room >= self@.capacity + 1,
            self.is_trimmed() ==> heap_room == self@.entries.len(),
            self.is_trimmed() && vstd::layout::size_of::<Slot<T>>() > 0 ==> slot_room
                == self@.entries.len(),
            Self::slots_fit(n) <==> n * vstd::layout::size_of::<Slot<T>>() <= isize::MAX,
    {
    }

    /// Relocation never makes a queue use more memory: a trimmed queue with the same
    /// entries and as many buckets has no more bytes.
    pub proof fn law_trimming_saves(
        self,
        trimmed: Self,
        slot_room: usize,
        heap_room: usize,
        trimmed_slot_room: usize,
        trimmed_heap_room: usize,
        item_bytes: Seq<usize>,
    )
        requires
            self.wf(),
            trimmed.is_trimmed(),
            trimmed@ == self@,
            trimmed.table_len() == self.table_len(),
            self.has_rooms(slot_room, heap_room),
            trimmed.has_rooms(trimmed_slot_room, trimmed_heap_room),
        ensures
            memory::queue_bytes(
                trimmed_slot_room as nat,
                vstd::layout::size_of::<Slot<T>>(),
                trimmed_heap_room as nat,
                trimmed.table_len(),
                vstd::layout::size_of::<u32>(),
                item_bytes,
            ) <= memory::queue_bytes(
                slot_room as nat,
                vstd::layout::size_of::<Slot<T>>(),
                heap_room as nat,
                self.table_len(),
                vstd::layout::size_of::<u32>(),
                item_bytes,
            ),
    {
        memory::lemma_room(self.slots, slot_room);
        memory::lemma_room(self.heap, heap_room);
        let slot_size = vstd::layout::size_of::<Slot<T>>();
        let index_size = vstd::layout::size_of::<u32>();
        assert(trimmed_slot_room * slot_size <= slot_room * slot_size) by (nonlinear_arith)
            requires
                slot_size == 0 || trimmed_slot_room <= slot_room,
                slot_size >= 0,
        ;
        assert(trimmed_heap_room * index_size <= heap_room * index_size) by (nonlinear_arith)
            requires
                trimmed_heap_room <= heap_room,
                index_size >= 0,
        ;
    }

    /// Appending a slot, with a place at the end of the heap, leaves the table and
    /// the heap to be brought up to date.
    proof fn lemma_pushed(self, before: Self)
        requires
            before.wf(),
            before.len < before.capacity,
            before.len < EMPTY,
            self.slots@.len() == before.slots@.len() + 1,
            self.slots@.drop_last() == before.slots@,
            self.slots@.last().heap_pos == before.len,
            self.heap@ == before.heap@.push(before.len as u32),
            self.table == before.table,
            self.table_mask == before.table_mask,
            self.capacity == before.capacity,
            self.len == before.len + 1,
            self.hasher == before.hasher,
        ensures
            self.shaped(),
            self.linked(),
            self.homes() == before.homes().push(self.home(self.slots@.last().item.key())),
            probing::table_ok(self.table@, self.buckets(), self.homes()),
            !probing::holds(self.table@, self.buckets(), before.len as int),
            self@.heap == before@.heap.push(before.len as int),
            self@.counts() == before@.counts().push(self.slots@.last().count),
    {
        let n = before.len as int;
        assert forall|i: int| 0 <= i < n implies self.slots@[i] == before.slots@[i] by {
            assert(self.slots@.drop_last()[i] == self.slots@[i]);
        }
        let home = self.home(self.slots@.last().item.key());
        assert(self.homes() =~= before.homes().push(home));
        assert(0 <= home < self.buckets()) by {
            let low = hashing::hash_of(self.hasher, self.slots@.last().item.key()) as u32;
            let mask = self.table_mask;
            assert(low & mask <= mask) by (bit_vector);
        }
        probing::lemma_grow(before.table@, before.buckets(), before.homes(), home);
        assert(self@.heap =~= before@.heap.push(n));
        assert(self@.counts() =~= before@.counts().push(self.slots@.last().count));
    }

    /// Replacing what the slot of the root holds, once the table no longer stores
    /// it, leaves the table and the heap to be brought up to date.
    proof fn lemma_replaced(self, before: Self)
        requires
            before.wf(),
            before.len > 0,
            self.slots@.len() == before.slots@.len(),
            self.slots@ == before.slots@.update(before@.victim(), self.slots@[before@.victim()]),
            self.slots@[before@.victim()].heap_pos == before.slots@[before@.victim()].heap_pos,
            self.heap == before.heap,
            self.table_mask == before.table_mask,
            self.capacity == before.capacity,
            self.len == before.len,
            self.hasher == before.hasher,
            self.table@.len() == before.table@.len(),
            probing::table_ok(self.table@, before.buckets(), before.homes()),
            probing::holds_all_but(
                before.table@,
                self.table@,
                before.buckets(),
                before@.victim(),
            ),
        ensures
            self.shaped(),
            self.linked(),
            self.homes()[before@.victim()] == self.home(self.slots@[before@.victim()].item.key()),
            probing::table_ok(self.table@, self.buckets(), self.homes()),
            !probing::holds(self.table@, self.buckets(), before@.victim()),
            self@.heap == before@.heap,
            self@.counts() == before@.counts().update(
                before@.victim(),
                self.slots@[before@.victim()].count,
            ),
    {
        let v = before@.victim();
        let m = before.buckets();
        assert(before.heap@[0] < before.slots@.len());
        let home = self.home(self.slots@[v].item.key());
        assert(self.homes() =~= before.homes().update(v, home));
        assert(0 <= home < m) by {
            let low = hashing::hash_of(self.hasher, self.slots@[v].item.key()) as u32;
            let mask = self.table_mask;
            assert(low & mask <= mask) by (bit_vector);
        }
        assert(!probing::holds(self.table@, m, v));
        probing::lemma_rehome(self.table@, m, before.homes(), v, home);
        assert forall|p: int| 0 <= p < self.heap@.len() implies {
            &&& (#[trigger] self.heap@[p]) < self.slots@.len()
            &&& self.slots@[self.heap@[p] as int].heap_pos == p
        } by {
            assert(before.heap@[p] < before.slots@.len());
        }
        assert forall|i: int| 0 <= i < self.slots@.len() implies {
            &&& (#[trigger] self.slots@[i]).heap_pos < self.heap@.len()
            &&& self.heap@[self.slots@[i].heap_pos as int] == i
        } by {
            assert(before.slots@[i].heap_pos < before.heap@.len());
        }
        assert(self@.counts() =~= before@.counts().update(v, self.slots@[v].count));
    }

    /// Homes rest on the items, the hasher and the mask alone.
    proof fn lemma_same_homes(self, other: Self)
        requires
            self.entries().len() == other.entries().len(),
            forall|i: int|
                0 <= i < self.entries().len() ==> (#[trigger] self.entries()[i]).item
                    == other.entries()[i].item,
            self.hasher == other.hasher,
            self.table_mask == other.table_mask,
        ensures
            self.homes() == other.homes(),
    {
        assert forall|i: int| 0 <= i < self.homes().len() implies self.homes()[i]
            == other.homes()[i] by {
            assert(self.entries()[i].item == other.entries()[i].item);
        }
        assert(self.homes() =~= other.homes());
    }

    /// Replacing the count of one slot leaves the heap to be brought up to date.
    proof fn lemma_recounted(self, before: Self, slot: int, count: u64)
        requires
            before.wf(),
            0 <= slot < before.slots@.len(),
            self == (TopKQueue { slots: self.slots, ..before }),
            self.slots@ == before.slots@.update(
                slot,
                Slot { count, ..before.slots@[slot] },
            ),
        ensures
            self.shaped(),
            self.linked(),
            self.entries() == before@.recounted(slot, count).entries,
            self@.heap == before@.heap,
            self@.counts() == before@.counts().update(slot, count),
            heap::place_of(before@.heap, slot) == before.slots@[slot].heap_pos,
    {
        assert(self.entries() =~= before@.recounted(slot, count).entries);
        assert(self@.counts() =~= before@.counts().update(slot, count));
        let place = before.slots@[slot].heap_pos as int;
        assert(before.heap@[place] == slot);
        heap::lemma_place_of(before@.heap, before.len as int, place);
    }

    // --- Hash table operations (open addressing, linear probing) ---

    /// The home bucket of a hash.
    fn table_bucket(&self, hash: u64) -> (bucket: usize)
        requires
            self.shaped(),
        ensures
            bucket == probing::bucket_of(hash, self.table_mask),
            bucket < self.buckets(),
    {
        let low: u32 = #[verifier::truncate]
        (hash as u32);
        let mask: u32 = self.table_mask;
        assert(low & mask <= mask) by (bit_vector);
        (low & mask) as usize
    }

    /// Find the slot of `item`, probing from the home bucket of `hash`.
    fn find_slot_with_hash<Q: Item + ?Sized>(&self, item: &Q, hash: u64) -> (found: Option<usize>)
        where T: Matches<Q>
        requires
            self.wf(),
            hash == hashing::hash_of(self.hasher, item.key()),
        ensures
            found is Some <==> self@.tracks(item.key()),
            found matches Some(i) ==> self@.tracks_at(i as int, item.key()) && i
                == self@.slot_of(item.key()),
    {
        let ghost m = self.buckets();
        let ghost home = self.home(item.key());
        let ghost homes = self.homes();
        let mut bucket: usize = self.table_bucket(hash);
        proof {
            probing::lemma_has_empty(self.table@, m, homes);
        }
        let ghost free = choose|e: int| 0 <= e < m && #[trigger] self.table@[e] == EMPTY;
        loop
            invariant
                self.wf(),
                m == self.buckets(),
                home == self.home(item.key()),
                homes == self.homes(),
                0 <= home < m,
                0 <= free < m,
                self.table@[free] == EMPTY,
                bucket < m,
                probing::steps(home, bucket as int, m) <= probing::steps(home, free, m),
                forall|p: int|
                    0 <= p < m && probing::steps(home, p, m) < probing::steps(
                        home,
                        bucket as int,
                        m,
                    ) ==> {
                        &&& #[trigger] self.table@[p] != EMPTY
                        &&& self.slots@[self.table@[p] as int].item.key() != item.key()
                    },
            decreases probing::steps(home, free, m) - probing::steps(home, bucket as int, m),
        {
            let slot_idx: u32 = self.table[bucket];
            if slot_idx == EMPTY {
                proof {
                    if self@.tracks(item.key()) {
                        let i = choose|i: int| #[trigger] self@.tracks_at(i, item.key());
                        assert(probing::holds(self.table@, m, i));
                        let b = choose|b: int| 0 <= b < m && #[trigger] self.table@[b] == i;
                        assert(homes[i] == home);
                        assert(self.table@[b] != EMPTY);
                        assert(self.table@[bucket as int] == EMPTY);
                        assert(false);
                    }
                }
                return None;
            }
            if self.slots[slot_idx as usize].item.matches(item) {
                proof {
                    self@.lemma_slot_of(slot_idx as int, item.key());
                }
                return Some(slot_idx as usize);
            }
            bucket = probing::next_bucket(bucket, self.table_mask);
        }
    }

    /// Find the slot of `item`.
    fn find_slot<Q: Item + ?Sized>(&self, item: &Q) -> (found: Option<usize>)
        where T: Matches<Q>
        requires
            self.wf(),
        ensures
            found is Some <==> self@.tracks(item.key()),
            found matches Some(i) ==> self@.tracks_at(i as int, item.key()) && i
                == self@.slot_of(item.key()),
    {
        let hash: u64 = item.hash_with(&self.hasher);
        self.find_slot_with_hash(item, hash)
    }

    /// Find the slot of `item` by comparing it with every slot in turn: the slot
    /// that the hash table leads to, without computing a hash.
    pub fn find_slot_linear<Q: Item + ?Sized>(&self, item: &Q) -> (found: Option<usize>)
        where T: Matches<Q>
        requires
            self.wf(),
        ensures
            found is Some <==> self@.tracks(item.key()),
            found matches Some(i) ==> self@.tracks_at(i as int, item.key()) && i
                == self@.slot_of(item.key()),
    {
        let mut i: usize = 0;
        while i < self.len
            invariant
                self.wf(),
                i <= self.len,
                forall|j: int| 0 <= j < i ==> !#[trigger] self@.tracks_at(j, item.key()),
            decreases self.len - i,
        {
            if self.slots[i].item.matches(item) {
                proof {
                    self@.lemma_slot_of(i as int, item.key());
                }
                return Some(i);
            }
            i += 1;
        }
        None
    }

    /// Store `slot_idx` in the first unoccupied bucket from its home on.
    fn table_insert(&mut self, hash: u64, slot_idx: u32)
        requires
            old(self).shaped(),
            probing::table_ok(old(self).table@, old(self).buckets(), old(self).homes()),
            slot_idx < old(self).slots@.len(),
            !probing::holds(old(self).table@, old(self).buckets(), slot_idx as int),
            probing::bucket_of(hash, old(self).table_mask) == old(self).homes()[slot_idx as int],
        ensures
            *final(self) == (TopKQueue { table: final(self).table, ..*old(self) }),
            final(self).shaped(),
            probing::table_ok(final(self).table@, final(self).buckets(), final(self).homes()),
            forall|i: int|
                0 <= i < EMPTY ==> (#[trigger] probing::holds(
                    final(self).table@,
                    final(self).buckets(),
                    i,
                ) <==> probing::holds(old(self).table@, old(self).buckets(), i) || i == slot_idx),
    {
        let ghost m = self.buckets();
        let ghost homes = self.homes();
        let ghost home = homes[slot_idx as int];
        let mut bucket: usize = self.table_bucket(hash);
        proof {
            probing::lemma_has_empty(self.table@, m, homes);
        }
        let ghost free = choose|e: int| 0 <= e < m && #[trigger] self.table@[e] == EMPTY;
        loop
            invariant
                *self == *old(self),
                self.shaped(),
                probing::table_ok(self.table@, m, homes),
                m == self.buckets(),
                homes == self.homes(),
                home == homes[slot_idx as int],
                slot_idx < self.slots@.len(),
                !probing::holds(self.table@, m, slot_idx as int),
                0 <= free < m,
                self.table@[free] == EMPTY,
                bucket < m,
                probing::steps(home, bucket as int, m) <= probing::steps(home, free, m),
                forall|p: int|
                    0 <= p < m && probing::steps(home, p, m) < probing::steps(
                        home,
                        bucket as int,
                        m,
                    ) ==> #[trigger] self.table@[p] != EMPTY,
            decreases probing::steps(home, free, m) - probing::steps(home, bucket as int, m),
        {
            if self.table[bucket] == EMPTY {
                proof {
                    probing::lemma_insert(self.table@, m, homes, slot_idx, bucket as int);
                }
                self.table[bucket] = slot_idx;
                assert(self.homes() =~= homes);
                return;
            }
            bucket = probing::next_bucket(bucket, self.table_mask);
        }
    }

    /// Take `slot_idx` out of the table.
    fn table_remove(&mut self, hash: u64, slot_idx: u32)
        requires
            old(self).shaped(),
            probing::table_ok(old(self).table@, old(self).buckets(), old(self).homes()),
            slot_idx < old(self).slots@.len(),
            probing::bucket_of(hash, old(self).table_mask) == old(self).homes()[slot_idx as int],
        ensures
            *final(self) == (TopKQueue { table: final(self).table, ..*old(self) }),
            final(self).shaped(),
            probing::table_ok(final(self).table@, final(self).buckets(), final(self).homes()),
            probing::holds_all_but(
                old(self).table@,
                final(self).table@,
                old(self).buckets(),
                slot_idx as int,
            ),
    {
        let ghost m = self.buckets();
        let ghost homes = self.homes();
        let ghost home = homes[slot_idx as int];
        let ghost before = self.table@;
        let mut bucket: usize = self.table_bucket(hash);
        proof {
            probing::lemma_has_empty(self.table@, m, homes);
        }
        let ghost free = choose|e: int| 0 <= e < m && #[trigger] self.table@[e] == EMPTY;
        loop
            invariant
                *self == *old(self),
                self.shaped(),
                self.table@ == before,
                probing::table_ok(self.table@, m, homes),
                m == self.buckets(),
                homes == self.homes(),
                home == homes[slot_idx as int],
                slot_idx < self.slots@.len(),
                0 <= free < m,
                self.table@[free] == EMPTY,
                bucket < m,
                probing::steps(home, bucket as int, m) <= probing::steps(home, free, m),
                forall|p: int|
                    0 <= p < m && probing::steps(home, p, m) < probing::steps(
                        home,
                        bucket as int,
                        m,
                    ) ==> #[trigger] self.table@[p] != EMPTY && self.table@[p] != slot_idx,
            decreases probing::steps(home, free, m) - probing::steps(home, bucket as int, m),
        {
            if self.table[bucket] == EMPTY {
                proof {
                    if probing::holds(before, m, slot_idx as int) {
                        let b = choose|b: int| 0 <= b < m && #[trigger] before[b] == slot_idx;
                        assert(before[b] != EMPTY);
                        assert(before[bucket as int] == EMPTY);
                        assert(false);
                    }
                }
                return;
            }
            if self.table[bucket] == slot_idx {
                proof {
                    probing::lemma_clear(self.table@, m, homes, bucket as int);
                }
                self.table[bucket] = EMPTY;
                // Backward-shift deletion to maintain probe sequences
                let mut vacancy: usize = bucket;
                assert(self.homes() =~= homes);
                loop
                    invariant_except_break
                        *self == (TopKQueue { table: self.table, ..*old(self) }),
                        self.shaped(),
                        m == self.buckets(),
                        homes == self.homes(),
                        0 <= free < m,
                        self.table@[free] == EMPTY,
                        free != vacancy,
                        bucket < m,
                        probing::repair_ok(
                            self.table@,
                            m,
                            homes,
                            vacancy as int,
                            bucket as int,
                        ),
                        probing::holds_all_but(before, self.table@, m, slot_idx as int),
                    ensures
                        *self == (TopKQueue { table: self.table, ..*old(self) }),
                        self.shaped(),
                        homes == self.homes(),
                        probing::table_ok(self.table@, m, homes),
                        probing::holds_all_but(before, self.table@, m, slot_idx as int),
                    decreases probing::steps(bucket as int, free, m),
                {
                    let ghost upto = bucket as int;
                    let ghost now = self.table@;
                    bucket = probing::next_bucket(bucket, self.table_mask);
                    if self.table[bucket] == EMPTY {
                        proof {
                            probing::lemma_repair_done(now, m, homes, vacancy as int, upto);
                        }
                        break;
                    }
                    let stored: u32 = self.table[bucket];
                    let stored_hash: u64 = self.slots[stored as usize].item.hash_with(&self.hasher);
                    let natural: usize = self.table_bucket(stored_hash);
                    assert(natural == homes[stored as int]);
                    // Check if this entry's natural bucket is at or before the vacancy
                    // (wrapping considered).
                    if probing::wraps_around(natural, vacancy, bucket, self.table.len()) {
                        proof {
                            probing::lemma_repair_shift(now, m, homes, vacancy as int, upto);
                        }
                        self.table[vacancy] = stored;
                        self.table[bucket] = EMPTY;
                        vacancy = bucket;
                        assert(self.homes() =~= homes);
                    } else {
                        proof {
                            probing::lemma_repair_skip(now, m, homes, vacancy as int, upto);
                        }
                    }
                }
                return;
            }
            bucket = probing::next_bucket(bucket, self.table_mask);
        }
    }

    // --- Binary heap helpers (0-based Eytzinger layout) ---

    /// The count of a slot.
    pub fn slot_count(&self, slot_idx: u32) -> (count: u64)
        requires
            slot_idx < self@.entries.len(),
        ensures
            count == self@.entries[slot_idx as int].count,
    {
        self.slots[slot_idx as usize].count
    }

    /// Exchange two heap positions.
    fn swap_nodes(&mut self, i: usize, j: usize)
        requires
            old(self).shaped(),
            old(self).linked(),
            i < old(self).len,
            j < old(self).len,
        ensures
            final(self).shaped(),
            final(self).linked(),
            final(self).same_but_heap(*old(self)),
            final(self)@.heap == heap::swapped(old(self)@.heap, i as int, j as int),
    {
        let at_i: u32 = self.heap[i];
        let at_j: u32 = self.heap[j];
        self.heap[i] = at_j;
        self.heap[j] = at_i;
        self.slots[at_j as usize].heap_pos = i as u32;
        self.slots[at_i as usize].heap_pos = j as u32;
        assert(self.entries() =~= old(self).entries());
        assert(self@.heap =~= heap::swapped(old(self)@.heap, i as int, j as int));
    }

    /// Move a slot up until the one above has no larger count.
    fn sift_up(&mut self, start: usize)
        requires
            old(self).shaped(),
            old(self).linked(),
            start < old(self).len,
        ensures
            final(self).shaped(),
            final(self).linked(),
            final(self).same_but_heap(*old(self)),
            final(self)@.heap == heap::raised(old(self)@.heap, old(self)@.counts(), start as int),
    {
        let ghost counts = self@.counts();
        let mut pos: usize = start;
        while pos > 0
            invariant
                self.shaped(),
                self.linked(),
                self.same_but_heap(*old(self)),
                counts == self@.counts(),
                pos < self.len,
                heap::raised(self@.heap, counts, pos as int) == heap::raised(
                    old(self)@.heap,
                    counts,
                    start as int,
                ),
            ensures
                self@.heap == heap::raised(old(self)@.heap, counts, start as int),
            decreases pos,
        {
            let above: usize = (pos - 1) / 2;
            proof {
                self.lemma_level(counts, above as int);
                self.lemma_level(counts, pos as int);
            }
            if self.slot_count(self.heap[above]) > self.slot_count(self.heap[pos]) {
                self.swap_nodes(above, pos);
                pos = above;
            } else {
                break;
            }
        }
    }

    /// Move a slot down until those below have no smaller counts.
    fn sift_down(&mut self, start: usize)
        requires
            old(self).shaped(),
            old(self).linked(),
            start < old(self).len,
        ensures
            final(self).shaped(),
            final(self).linked(),
            final(self).same_but_heap(*old(self)),
            final(self)@.heap == heap::lowered(old(self)@.heap, old(self)@.counts(), start as int),
    {
        let ghost counts = self@.counts();
        let mut pos: usize = start;
        loop
            invariant
                self.shaped(),
                self.linked(),
                self.same_but_heap(*old(self)),
                counts == self@.counts(),
                pos < self.len,
                heap::lowered(self@.heap, counts, pos as int) == heap::lowered(
                    old(self)@.heap,
                    counts,
                    start as int,
                ),
            ensures
                self@.heap == heap::lowered(old(self)@.heap, counts, start as int),
            decreases self.len - pos,
        {
            let mut smallest: usize = pos;
            let left: usize = 2 * pos + 1;
            let right: usize = 2 * pos + 2;
            proof {
                self.lemma_level(counts, pos as int);
                if left < self.len {
                    self.lemma_level(counts, left as int);
                }
                if right < self.len {
                    self.lemma_level(counts, right as int);
                }
            }
            if left < self.len && self.slot_count(self.heap[left]) < self.slot_count(
                self.heap[smallest],
            ) {
                smallest = left;
            }
            if right < self.len && self.slot_count(self.heap[right]) < self.slot_count(
                self.heap[smallest],
            ) {
                smallest = right;
            }
            assert(smallest == heap::least_of(heap::levels(self@.heap, counts), pos as int));
            if smallest == pos {
                break;
            }
            self.swap_nodes(pos, smallest);
            pos = smallest;
        }
    }

    /// The count at a heap position.
    proof fn lemma_level(self, counts: Seq<u64>, p: int)
        requires
            self.linked(),
            counts == self@.counts(),
            0 <= p < self.heap@.len(),
        ensures
            heap::levels(self@.heap, counts)[p] == self.slots@[self.heap@[p] as int].count,
            self.heap@[p] < self.slots@.len(),
    {
        assert(self.heap@[p] < self.slots@.len());
    }
}

impl<T: Item + Clone> Clone for TopKQueue<T> {
    /// A queue with clones of the items, and all else alike. It is well-formed
    /// wherever the clones have the keys of the items.
    fn clone(&self) -> (copy: Self)
        ensures
            copy@.capacity == self@.capacity,
            copy@.sequence == self@.sequence,
            copy@.heap == self@.heap,
            copy.hash_state() == self.hash_state(),
            copy@.entries.len() == self@.entries.len(),
            forall|i: int|
                0 <= i < self@.entries.len() ==> {
                    &&& cloned(self@.entries[i].item, (#[trigger] copy@.entries[i]).item)
                    &&& copy@.entries[i].count == self@.entries[i].count
                    &&& copy@.entries[i].sequence == self@.entries[i].sequence
                },
            self.wf() && (forall|i: int|
                0 <= i < self@.entries.len() ==> (#[trigger] copy@.entries[i]).item.key()
                    == self@.entries[i].item.key()) ==> copy.wf(),
    {
        let mut slots: Vec<Slot<T>> = Vec::new();
        memory::reserve(&mut slots, self.slots.len());
        let mut i: usize = 0;
        while i < self.slots.len()
            invariant
                i <= self.slots@.len(),
                slots@.len() == i,
                forall|k: int|
                    0 <= k < i ==> {
                        &&& cloned(self.slots@[k].item, (#[trigger] slots@[k]).item)
                        &&& slots@[k].count == self.slots@[k].count
                        &&& slots@[k].sequence == self.slots@[k].sequence
                        &&& slots@[k].heap_pos == self.slots@[k].heap_pos
                    },
            decreases self.slots@.len() - i,
        {
            let slot = Slot {
                item: self.slots[i].item.clone(),
                count: self.slots[i].count,
                sequence: self.slots[i].sequence,
                heap_pos: self.slots[i].heap_pos,
            };
            slots.push(slot);
            i += 1;
        }
        let copy = TopKQueue {
            slots,
            heap: self.heap.clone(),
            table: self.table.clone(),
            table_mask: self.table_mask,
            capacity: self.capacity,
            len: self.len,
            sequence: self.sequence,
            hasher: self.hasher.clone(),
        };
        proof {
            assert(copy.heap@ =~= self.heap@);
            assert(copy.table@ =~= self.table@);
            if self.wf() && (forall|i: int|
                0 <= i < self@.entries.len() ==> (#[trigger] copy@.entries[i]).item.key()
                    == self@.entries[i].item.key()) {
                assert forall|p: int| 0 <= p < copy.heap@.len() implies {
                    &&& (#[trigger] copy.heap@[p]) < copy.slots@.len()
                    &&& copy.slots@[copy.heap@[p] as int].heap_pos == p
                } by {
                    assert(self.heap@[p] < self.slots@.len());
                }
                assert(copy@.counts() =~= self@.counts());
                assert forall|i: int| 0 <= i < copy.slots@.len() implies {
                    &&& (#[trigger] copy.slots@[i]).heap_pos < copy.heap@.len()
                    &&& copy.heap@[copy.slots@[i].heap_pos as int] == i
                    &&& copy.homes()[i] == self.homes()[i]
                    &&& copy@.entries[i].item.key() == self@.entries[i].item.key()
                } by {
                    assert(self.slots@[i].heap_pos < self.heap@.len());
                    assert(copy@.entries[i].item.key() == self@.entries[i].item.key());
                }
                assert(copy.homes() =~= self.homes());
                assert forall|i: int, j: int|
                    0 <= i < copy@.entries.len() && 0 <= j < copy@.entries.len() && (
                    #[trigger] copy@.entries[i]).item.key() == (
                    #[trigger] copy@.entries[j]).item.key() implies i == j by {
                    assert(self@.entries[i].item.key() == self@.entries[j].item.key());
                }
            }
        }
        copy
    }
}

}
