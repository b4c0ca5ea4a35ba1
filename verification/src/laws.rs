//! What holds of every queue: the laws that relate its operations.

use crate::hashing::{Item, ItemKey};
use crate::heap;
use crate::model;
use crate::model::{Entry, QueueModel};
use crate::priority_queue::TopKQueue;
use ahash::RandomState;
use vstd::prelude::*;
use vstd::set_lib::lemma_len_subset;

verus! {

/// An insertion is kept exactly when the item was tracked, or there was room, or
/// its count beats that of the victim; then the item has the new count.
/// Otherwise the queue stays as it was, and the item is not tracked.
pub proof fn law_upsert_reads_back<T: Item>(
    queue: QueueModel<T>,
    item: T,
    count: u64,
)
    requires
        queue.valid(),
    ensures
        ({
            let after = queue.upserted(item, count);
            let kept = queue.tracks(item.key()) || queue.entries.len() < queue.capacity
                || queue.displaces(item.key(), count);
            &&& kept ==> after.count_of(item.key()) == Some(count)
            &&& !kept ==> after == queue && after.count_of(item.key()) is None
        }),
{
    let key = item.key();
    let after = queue.upserted(item, count);
    queue.lemma_upserted_valid(item, count);
    if queue.tracks(key) {
        let i = queue.slot_of(key);
        assert(queue.tracks_at(i, key));
        assert(after.tracks_at(i, key));
        after.lemma_slot_of(i, key);
    } else if queue.entries.len() < queue.capacity {
        let i = queue.entries.len() as int;
        assert(after.tracks_at(i, key));
        after.lemma_slot_of(i, key);
    } else if queue.displaces(key, count) {
        queue.lemma_victim_is_least();
        assert(after.tracks_at(queue.victim(), key));
        after.lemma_slot_of(queue.victim(), key);
    }
}

/// An insertion changes the count of no other item; only the displaced item, if
/// there is one, is no longer tracked.
pub proof fn law_upsert_keeps_others<T: Item>(
    queue: QueueModel<T>,
    item: T,
    count: u64,
    other: Seq<u8>,
)
    requires
        queue.valid(),
        other != item.key(),
    ensures
        ({
            let after = queue.upserted(item, count);
            match queue.evicted_by(item, count) {
                Some(evicted) if evicted.key() == other => after.count_of(other) is None,
                _ => after.count_of(other) == queue.count_of(other),
            }
        }),
{
    let key = item.key();
    let after = queue.upserted(item, count);
    queue.lemma_upserted_valid(item, count);
    if queue.tracks(key) {
        assert(queue.tracks_at(queue.slot_of(key), key));
    }
    if queue.entries.len() > 0 {
        queue.lemma_victim_is_least();
    }
    let victim = queue.victim();
    let gone = queue.displaces(key, count) && queue.entries[victim].item.key() == other;
    if queue.tracks(other) && !gone {
        let i = queue.slot_of(other);
        assert(queue.tracks_at(i, other));
        queue.lemma_slot_of(i, other);
        assert(after.entries[i] == queue.entries[i]);
        assert(after.tracks_at(i, other));
        after.lemma_slot_of(i, other);
    }
    if after.tracks(other) {
        let i = after.slot_of(other);
        assert(after.tracks_at(i, other));
        assert(i < queue.entries.len());
        assert(queue.tracks_at(i, other));
        if gone {
            queue.lemma_slot_of(i, other);
            assert(queue.tracks_at(victim, other));
            queue.lemma_slot_of(victim, other);
        }
    }
}

/// A displaced item had a least count, and a smaller one than the new item; it is
/// not tracked any more.
pub proof fn law_evicted_is_least<T: Item>(
    queue: QueueModel<T>,
    item: T,
    count: u64,
)
    requires
        queue.valid(),
        queue.evicted_by(item, count) is Some,
    ensures
        ({
            let evicted = queue.evicted_by(item, count)->0;
            let after = queue.upserted(item, count);
            let victim = queue.victim();
            &&& queue.count_of(evicted.key()) == Some(queue.entries[victim].count)
            &&& queue.entries[victim].count < count
            &&& forall|j: int|
                0 <= j < queue.entries.len() ==> queue.entries[victim].count <= (
                #[trigger] queue.entries[j]).count
            &&& !after.tracks(evicted.key())
            &&& after.entries.len() == queue.entries.len()
        }),
{
    let victim = queue.victim();
    let key = queue.entries[victim].item.key();
    queue.lemma_victim_is_least();
    assert(queue.tracks_at(victim, key));
    queue.lemma_slot_of(victim, key);
    if key == item.key() {
        assert(queue.tracks(item.key()));
    }
    law_upsert_keeps_others(queue, item, count, key);
}

/// No insertion lowers the least count, of a queue that is full or tracks the item
/// already, unless it lowers the item's own count.
pub proof fn law_least_count_rises<T: Item>(queue: QueueModel<T>, item: T, count: u64)
    requires
        queue.valid(),
        queue.entries.len() > 0,
        queue.tracks(item.key()) || queue.entries.len() == queue.capacity,
        queue.count_of(item.key()) matches Some(current) ==> current <= count,
    ensures
        queue.entries[queue.victim()].count <= queue.upserted(item, count).entries[queue.upserted(
            item,
            count,
        ).victim()].count,
{
    let after = queue.upserted(item, count);
    queue.lemma_upserted_valid(item, count);
    queue.lemma_victim_is_least();
    after.lemma_victim_is_least();
    if queue.tracks(item.key()) {
        assert(queue.tracks_at(queue.slot_of(item.key()), item.key()));
    }
    let least = after.victim();
    assert(0 <= least < queue.entries.len());
    assert(queue.entries[queue.victim()].count <= queue.entries[least].count);
}

/// Inserting a tracked item is the same as updating it: it displaces nothing.
pub proof fn law_upsert_updates<T: Item>(
    queue: QueueModel<T>,
    item: T,
    count: u64,
)
    requires
        queue.valid(),
        queue.tracks(item.key()),
    ensures
        queue.upserted(item, count) == queue.updated(item.key(), count),
        queue.evicted_by(item, count) is None,
{
}

/// Repeating an insertion changes nothing.
pub proof fn law_upsert_idempotent<T: Item>(queue: QueueModel<T>, item: T, count: u64)
    requires
        queue.valid(),
    ensures
        queue.upserted(item, count).upserted(item, count) == queue.upserted(item, count),
        queue.upserted(item, count).evicted_by(item, count) is None,
{
    let once = queue.upserted(item, count);
    let key = item.key();
    law_upsert_reads_back(queue, item, count);
    queue.lemma_upserted_valid(item, count);
    if once.tracks(key) {
        let i = once.slot_of(key);
        assert(once.tracks_at(i, key));
        once.lemma_slot_of(i, key);
        once.lemma_same_count(i);
    }
}

/// The queue after a series of insertions.
pub open spec fn fed<T: Item>(queue: QueueModel<T>, offers: Seq<(T, u64)>) -> QueueModel<T>
    decreases offers.len(),
{
    if offers.len() == 0 {
        queue
    } else {
        fed(queue, offers.drop_last()).upserted(offers.last().0, offers.last().1)
    }
}

/// A series of insertions keeps a queue valid, and its capacity.
pub proof fn law_fed_valid<T: Item>(queue: QueueModel<T>, offers: Seq<(T, u64)>)
    requires
        queue.valid(),
    ensures
        fed(queue, offers).valid(),
        fed(queue, offers).capacity == queue.capacity,
    decreases offers.len(),
{
    if offers.len() > 0 {
        law_fed_valid(queue, offers.drop_last());
        fed(queue, offers.drop_last()).lemma_upserted_valid(offers.last().0, offers.last().1);
    }
}

/// No two offers are for the same item.
pub open spec fn distinct_offers<T: Item>(offers: Seq<(T, u64)>) -> bool {
    forall|i: int, j: int|
        0 <= i < offers.len() && 0 <= j < offers.len() && (#[trigger] offers[i]).0.key() == (
        #[trigger] offers[j]).0.key() ==> i == j
}

/// No offer of a series lowers the count of an item that is tracked when the offer
/// is made.
pub open spec fn lowers_none<T: Item>(queue: QueueModel<T>, offers: Seq<(T, u64)>) -> bool {
    forall|i: int|
        0 <= i < offers.len() ==> (fed(queue, #[trigger] offers.take(i)).count_of(
            offers[i].0.key(),
        ) matches Some(current) ==> current <= offers[i].1)
}

/// The entry holds the count that its item was offered with last, and no offer of
/// the item had a larger one.
pub open spec fn holds_last<T: Item>(entry: Entry<T>, offers: Seq<(T, u64)>) -> bool {
    &&& exists|i: int|
        {
            &&& 0 <= i < offers.len()
            &&& (#[trigger] offers[i]).0.key() == entry.item.key()
            &&& offers[i].1 == entry.count
            &&& forall|j: int|
                i < j < offers.len() ==> (#[trigger] offers[j]).0.key() != entry.item.key()
        }
    &&& forall|i: int|
        0 <= i < offers.len() && (#[trigger] offers[i]).0.key() == entry.item.key()
            ==> offers[i].1 <= entry.count
}

/// The keys of the offered items.
pub open spec fn offered_keys<T: Item>(offers: Seq<(T, u64)>) -> Set<ItemKey> {
    offers.map_values(|offer: (T, u64)| offer.0.key()).to_set()
}

/// A queue tracks the top k. Where no offer lowers the count of an item that is
/// tracked then, each tracked item has its last count, which is its largest,
/// nothing is let go while there is room, and no item that was let go or turned
/// down was ever offered with a larger count than a tracked one has. As many items
/// are tracked as were offered, up to the capacity.
pub proof fn law_keeps_the_top<T: Item>(capacity: nat, offers: Seq<(T, u64)>)
    requires
        lowers_none(QueueModel::<T>::fresh(capacity), offers),
    ensures
        ({
            let queue = fed(QueueModel::<T>::fresh(capacity), offers);
            &&& queue.valid()
            &&& queue.capacity == capacity
            &&& forall|j: int|
                0 <= j < queue.entries.len() ==> holds_last(#[trigger] queue.entries[j], offers)
            &&& queue.entries.len() < capacity ==> forall|i: int|
                0 <= i < offers.len() ==> queue.tracks((#[trigger] offers[i]).0.key())
            &&& forall|i: int, j: int|
                0 <= i < offers.len() && 0 <= j < queue.entries.len() && !queue.tracks(
                    (#[trigger] offers[i]).0.key(),
                ) ==> offers[i].1 <= (#[trigger] queue.entries[j]).count
            &&& queue.entries.len() == if offered_keys(offers).len() < capacity {
                offered_keys(offers).len()
            } else {
                capacity
            }
        }),
    decreases offers.len(),
{
    let start = QueueModel::<T>::fresh(capacity);
    if offers.len() > 0 {
        let n = offers.len() - 1;
        let rest = offers.drop_last();
        assert(rest =~= offers.take(n));
        assert forall|i: int| 0 <= i < rest.len() implies (fed(
            start,
            #[trigger] rest.take(i),
        ).count_of(rest[i].0.key()) matches Some(current) ==> current <= rest[i].1) by {
            assert(rest.take(i) =~= offers.take(i));
            assert(rest[i] == offers[i]);
        }
        law_keeps_the_top(capacity, rest);
        let before = fed(start, rest);
        lemma_top_step(before, offers);
    } else {
        assert(fed(start, offers).entries =~= Seq::<Entry<T>>::empty());
    }
    lemma_tracked_number(fed(start, offers), offers);
}

/// A queue that tracks offered items only, and all of them while there is room,
/// tracks as many as were offered, up to its capacity.
proof fn lemma_tracked_number<T: Item>(queue: QueueModel<T>, offers: Seq<(T, u64)>)
    requires
        queue.valid(),
        forall|j: int|
            0 <= j < queue.entries.len() ==> holds_last(#[trigger] queue.entries[j], offers),
        queue.entries.len() < queue.capacity ==> forall|i: int|
            0 <= i < offers.len() ==> queue.tracks((#[trigger] offers[i]).0.key()),
    ensures
        queue.entries.len() == if offered_keys(offers).len() < queue.capacity {
            offered_keys(offers).len()
        } else {
            queue.capacity
        },
{
    let keys = queue.entries.map_values(|entry: Entry<T>| entry.item.key());
    let offered = offers.map_values(|offer: (T, u64)| offer.0.key());
    assert forall|i: int, j: int|
        0 <= i < keys.len() && 0 <= j < keys.len() && i != j implies keys[i] != keys[j] by {
        assert(queue.entries[i].item.key() == keys[i]);
        assert(queue.entries[j].item.key() == keys[j]);
    }
    keys.unique_seq_to_set();
    offered.lemma_cardinality_of_set();
    assert forall|key: ItemKey| keys.to_set().contains(key) implies offered.to_set().contains(
        key,
    ) by {
        let j = choose|j: int| 0 <= j < keys.len() && keys[j] == key;
        assert(holds_last(queue.entries[j], offers));
        let i = choose|i: int|
            0 <= i < offers.len() && (#[trigger] offers[i]).0.key()
                == queue.entries[j].item.key() && offers[i].1 == queue.entries[j].count;
        assert(offered[i] == key);
    }
    lemma_len_subset(keys.to_set(), offered.to_set());
    if queue.entries.len() < queue.capacity {
        assert forall|key: ItemKey| offered.to_set().contains(key) implies keys.to_set().contains(
            key,
        ) by {
            let i = choose|i: int| 0 <= i < offered.len() && offered[i] == key;
            assert(queue.tracks(offers[i].0.key()));
            let j = queue.slot_of(key);
            assert(queue.tracks_at(j, key));
            assert(keys[j] == key);
        }
        assert(keys.to_set() =~= offered.to_set());
    }
}

/// One more offer keeps what makes a queue the top k of the offers so far.
proof fn lemma_top_step<T: Item>(before: QueueModel<T>, offers: Seq<(T, u64)>)
    requires
        offers.len() > 0,
        before.valid(),
        before.count_of(offers.last().0.key()) matches Some(current) ==> current
            <= offers.last().1,
        forall|j: int|
            0 <= j < before.entries.len() ==> holds_last(
                #[trigger] before.entries[j],
                offers.drop_last(),
            ),
        before.entries.len() < before.capacity ==> forall|i: int|
            0 <= i < offers.len() - 1 ==> before.tracks(
                (#[trigger] offers.drop_last()[i]).0.key(),
            ),
        forall|i: int, j: int|
            0 <= i < offers.len() - 1 && 0 <= j < before.entries.len() && !before.tracks(
                (#[trigger] offers.drop_last()[i]).0.key(),
            ) ==> offers.drop_last()[i].1 <= (#[trigger] before.entries[j]).count,
    ensures
        ({
            let after = before.upserted(offers.last().0, offers.last().1);
            &&& after.valid()
            &&& after.capacity == before.capacity
            &&& forall|j: int|
                0 <= j < after.entries.len() ==> holds_last(#[trigger] after.entries[j], offers)
            &&& after.entries.len() < after.capacity ==> forall|i: int|
                0 <= i < offers.len() ==> after.tracks((#[trigger] offers[i]).0.key())
            &&& forall|i: int, j: int|
                0 <= i < offers.len() && 0 <= j < after.entries.len() && !after.tracks(
                    (#[trigger] offers[i]).0.key(),
                ) ==> offers[i].1 <= (#[trigger] after.entries[j]).count
        }),
{
    let n = offers.len() - 1;
    let rest = offers.drop_last();
    let item = offers[n].0;
    let count = offers[n].1;
    let key = item.key();
    let after = before.upserted(item, count);
    let victim = before.victim();
    before.lemma_upserted_valid(item, count);
    law_upsert_reads_back(before, item, count);
    if before.entries.len() > 0 {
        before.lemma_victim_is_least();
    }
    // No earlier offer of the item had a larger count than one that is kept.
    assert forall|i: int|
        0 <= i < offers.len() && (#[trigger] offers[i]).0.key() == key && after.tracks(
            key,
        ) implies offers[i].1 <= count by {
        if i < n {
            assert(rest[i] == offers[i]);
            if before.tracks(key) {
                let s = before.slot_of(key);
                assert(before.tracks_at(s, key));
                assert(holds_last(before.entries[s], rest));
            }
        }
    }
    if before.tracks(key) {
        assert(before.tracks_at(before.slot_of(key), key));
    }
    // The item's slot holds its latest count, the other slots what they held.
    assert forall|j: int| 0 <= j < after.entries.len() implies holds_last(
        #[trigger] after.entries[j],
        offers,
    ) by {
        let entry = after.entries[j];
        if entry.item.key() == key && after.tracks(key) {
            assert(after.tracks_at(j, key));
            after.lemma_slot_of(j, key);
            assert(entry.count == count);
            assert(offers[n].0.key() == entry.item.key() && offers[n].1 == entry.count);
        } else {
            assert(j < before.entries.len() && entry == before.entries[j]) by {
                if j >= before.entries.len() || entry != before.entries[j] {
                    assert(after.tracks_at(j, key));
                }
            }
            assert(entry.item.key() != key) by {
                if entry.item.key() == key {
                    assert(after.tracks_at(j, key));
                }
            }
            assert(holds_last(entry, rest));
            let i = choose|i: int|
                {
                    &&& 0 <= i < rest.len()
                    &&& (#[trigger] rest[i]).0.key() == entry.item.key()
                    &&& rest[i].1 == entry.count
                    &&& forall|j: int|
                        i < j < rest.len() ==> (#[trigger] rest[j]).0.key() != entry.item.key()
                };
            assert(offers[i] == rest[i]);
            assert forall|j: int| i < j < offers.len() implies (#[trigger] offers[j]).0.key()
                != entry.item.key() by {
                if j < n {
                    assert(rest[j] == offers[j]);
                }
            }
            assert forall|i: int|
                0 <= i < offers.len() && (#[trigger] offers[i]).0.key()
                    == entry.item.key() implies offers[i].1 <= entry.count by {
                assert(offers[i] == rest[i]);
            }
        }
    }
    assert forall|i: int, j: int|
        0 <= i < offers.len() && 0 <= j < after.entries.len() && !after.tracks(
            (#[trigger] offers[i]).0.key(),
        ) implies offers[i].1 <= (#[trigger] after.entries[j]).count by {
        let gone = offers[i].0.key();
        if gone == key {
            assert(after == before);
            assert(before.entries[victim].count <= before.entries[j].count);
            if i < n {
                assert(rest[i] == offers[i]);
                assert(rest[i].1 <= before.entries[j].count);
            }
        } else {
            assert(rest[i] == offers[i]);
            law_upsert_keeps_others(before, item, count, gone);
            if before.tracks(gone) {
                // Tracked until this offer displaced it.
                assert(before.entries[victim].item.key() == gone);
                assert(holds_last(before.entries[victim], rest));
                assert(offers[i].1 <= before.entries[victim].count);
                if j != victim {
                    assert(after.entries[j] == before.entries[j]);
                }
            } else if before.tracks(key) {
                let s = before.slot_of(key);
                assert(rest[i].1 <= before.entries[j].count);
                if j != s {
                    assert(after.entries[j] == before.entries[j]);
                }
            } else if before.displaces(key, count) {
                assert(rest[i].1 <= before.entries[victim].count);
                if j != victim {
                    assert(rest[i].1 <= before.entries[j].count);
                }
            } else {
                assert(rest[i].1 <= before.entries[j].count);
            }
        }
    }
    if after.entries.len() < after.capacity {
        assert forall|i: int| 0 <= i < offers.len() implies after.tracks(
            (#[trigger] offers[i]).0.key(),
        ) by {
            if offers[i].0.key() != key {
                assert(rest[i] == offers[i]);
                law_upsert_keeps_others(before, item, count, offers[i].0.key());
            }
        }
    }
}

/// A new queue with room for a series of different items tracks them in the
/// order of the series, with turns counted from one.
pub proof fn lemma_fed_with_room<T: Item>(
    start: QueueModel<T>,
    offers: Seq<(T, u64)>,
)
    requires
        start == QueueModel::<T>::fresh(start.capacity),
        distinct_offers(offers),
        offers.len() <= start.capacity,
    ensures
        ({
            let queue = fed(start, offers);
            &&& queue.capacity == start.capacity
            &&& queue.entries.len() == offers.len()
            &&& forall|i: int|
                0 <= i < offers.len() ==> {
                    &&& (#[trigger] queue.entries[i]).item == offers[i].0
                    &&& queue.entries[i].count == offers[i].1
                }
            &&& offers.len() <= u32::MAX ==> queue.sequence == offers.len() && forall|i: int|
                0 <= i < offers.len() ==> (#[trigger] queue.entries[i]).sequence == i + 1
        }),
    decreases offers.len(),
{
    if offers.len() > 0 {
        let rest = offers.drop_last();
        lemma_fed_with_room(start, rest);
        let before = fed(start, rest);
        let key = offers.last().0.key();
        if before.tracks(key) {
            let i = before.slot_of(key);
            assert(before.tracks_at(i, key));
            assert(offers[i].0.key() == offers[offers.len() - 1].0.key());
        }
    }
}

/// Turns tell entries apart, and none is later than the latest insertion.
pub open spec fn in_turn<T: Item>(queue: QueueModel<T>) -> bool {
    &&& forall|i: int|
        0 <= i < queue.entries.len() ==> (#[trigger] queue.entries[i]).sequence <= queue.sequence
    &&& distinct_turns(queue)
}

/// No two entries were inserted at the same turn.
pub open spec fn distinct_turns<T: Item>(queue: QueueModel<T>) -> bool {
    forall|i: int, j: int|
        0 <= i < queue.entries.len() && 0 <= j < queue.entries.len() && (
        #[trigger] queue.entries[i]).sequence == (#[trigger] queue.entries[j]).sequence ==> i == j
}

/// A new queue is in turn, and stays so until turns wrap around, or at any rate
/// while it has one slot at most. An update keeps
/// the turn of its item; a new item gets a later turn than every other entry, so
/// that items with equal counts are listed in the order of insertion.
pub proof fn law_turns<T: Item>(queue: QueueModel<T>, item: T, count: u64)
    requires
        queue.valid(),
        in_turn(queue),
        queue.upserted(item, count).sequence >= queue.sequence || queue.capacity <= 1,
    ensures
        in_turn(QueueModel::<T>::fresh(queue.capacity)),
        ({
            let after = queue.upserted(item, count);
            let slot = after.slot_of(item.key());
            &&& in_turn(after)
            &&& queue.tracks(item.key()) ==> after.entries[slot].sequence
                == queue.entries[queue.slot_of(item.key())].sequence
            &&& !queue.tracks(item.key()) && after.tracks(item.key()) ==> forall|j: int|
                0 <= j < after.entries.len() && j != slot ==> (
                #[trigger] after.entries[j]).sequence < after.entries[slot].sequence
        }),
{
    let key = item.key();
    let after = queue.upserted(item, count);
    queue.lemma_upserted_valid(item, count);
    if queue.tracks(key) {
        let i = queue.slot_of(key);
        assert(queue.tracks_at(i, key));
        assert(after.tracks_at(i, key));
        after.lemma_slot_of(i, key);
        assert forall|a: int, b: int|
            0 <= a < after.entries.len() && 0 <= b < after.entries.len() && (
            #[trigger] after.entries[a]).sequence == (
            #[trigger] after.entries[b]).sequence implies a == b by {
            assert(queue.entries[a].sequence == queue.entries[b].sequence);
        }
    } else if queue.entries.len() < queue.capacity {
        let i = queue.entries.len() as int;
        assert(after.tracks_at(i, key));
        after.lemma_slot_of(i, key);
    } else if queue.displaces(key, count) {
        queue.lemma_victim_is_least();
        assert(after.tracks_at(queue.victim(), key));
        after.lemma_slot_of(queue.victim(), key);
    }
}

/// There is one ranking only, so that two listings of a queue are the same.
pub proof fn law_one_ranking<T: Item>(queue: QueueModel<T>, first: Seq<int>, second: Seq<int>)
    requires
        queue.is_ranking(first),
        queue.is_ranking(second),
    ensures
        first == second,
        queue.listed(first) == queue.listed(second),
{
    lemma_same_start(queue, first, second, first.len() as int);
    assert(first =~= second);
}

/// Two rankings agree on their first `upto` places.
proof fn lemma_same_start<T: Item>(
    queue: QueueModel<T>,
    first: Seq<int>,
    second: Seq<int>,
    upto: int,
)
    requires
        queue.is_ranking(first),
        queue.is_ranking(second),
        0 <= upto <= first.len(),
    ensures
        forall|k: int| 0 <= k < upto ==> #[trigger] first[k] == second[k],
    decreases upto,
{
    if upto > 0 {
        let k = upto - 1;
        lemma_same_start(queue, first, second, k);
        let a = first[k];
        let b = second[k];
        assert(first.contains(b));
        assert(second.contains(a));
        let p = choose|p: int| 0 <= p < first.len() && first[p] == b;
        let q = choose|q: int| 0 <= q < second.len() && second[q] == a;
        // The place of each in the other ranking is no earlier than here.
        if p < k {
            assert(first[p] == second[p]);
            assert(second[p] == second[k]);
        }
        if q < k {
            assert(first[q] == second[q]);
            assert(first[q] == first[k]);
        }
        assert(queue.outranks(first[k], first[p]));
        assert(queue.outranks(second[k], second[q]));
    }
}

/// There is one turn order only.
pub proof fn law_one_turn_order<T: Item>(queue: QueueModel<T>, first: Seq<int>, second: Seq<int>)
    requires
        queue.is_turn_order(first),
        queue.is_turn_order(second),
    ensures
        first == second,
        queue.listed(first) == queue.listed(second),
{
    // A turn order ranks the same entries with their counts made equal.
    let level = QueueModel {
        entries: queue.entries.map_values(
            |e: Entry<T>| Entry { item: e.item, count: 0, sequence: e.sequence },
        ),
        ..queue
    };
    assert forall|j: int, k: int| 0 <= j <= k < first.len() implies level.outranks(
        #[trigger] first[j],
        #[trigger] first[k],
    ) by {
        assert(queue.no_younger(first[j], first[k]));
    }
    assert forall|j: int, k: int| 0 <= j <= k < second.len() implies level.outranks(
        #[trigger] second[j],
        #[trigger] second[k],
    ) by {
        assert(queue.no_younger(second[j], second[k]));
    }
    law_one_ranking(level, first, second);
}

/// A ranking puts the largest count first and the least last, and lists every
/// tracked item with its count once.
pub proof fn law_ranking<T: Item>(queue: QueueModel<T>, order: Seq<int>, key: Seq<u8>)
    requires
        queue.valid(),
        queue.is_ranking(order),
    ensures
        queue.listed(order).len() == queue.entries.len(),
        forall|j: int, k: int|
            0 <= j <= k < order.len() ==> (#[trigger] queue.listed(order)[j]).1 >= (
            #[trigger] queue.listed(order)[k]).1,
        queue.tracks(key) <==> exists|k: int|
            0 <= k < order.len() && (#[trigger] queue.listed(order)[k]).0.key() == key,
        forall|k: int|
            0 <= k < order.len() && (#[trigger] queue.listed(order)[k]).0.key() == key
                ==> queue.count_of(key) == Some(queue.listed(order)[k].1),
        forall|j: int, k: int|
            0 <= j < order.len() && 0 <= k < order.len() && (#[trigger] queue.listed(
                order,
            )[j]).0.key() == (#[trigger] queue.listed(order)[k]).0.key() ==> j == k,
        order.len() > 0 ==> queue.is_least(order.last()),
{
    let list = queue.listed(order);
    assert forall|j: int, k: int| 0 <= j <= k < order.len() implies (#[trigger] list[j]).1 >= (
    #[trigger] list[k]).1 by {
        assert(queue.outranks(order[j], order[k]));
    }
    if queue.tracks(key) {
        let i = queue.slot_of(key);
        assert(queue.tracks_at(i, key));
        assert(order.contains(i));
        let k = choose|k: int| 0 <= k < order.len() && order[k] == i;
        assert(list[k].0.key() == key);
    }
    assert forall|k: int| 0 <= k < order.len() && (#[trigger] list[k]).0.key() == key implies {
        &&& queue.tracks(key)
        &&& queue.count_of(key) == Some(list[k].1)
    } by {
        assert(queue.tracks_at(order[k], key));
        queue.lemma_slot_of(order[k], key);
    }
    assert forall|j: int, k: int|
        0 <= j < order.len() && 0 <= k < order.len() && (#[trigger] list[j]).0.key() == (
        #[trigger] list[k]).0.key() implies j == k by {
        assert(queue.entries[order[j]].item.key() == queue.entries[order[k]].item.key());
    }
    if order.len() > 0 {
        let last = order.len() - 1;
        assert forall|i: int| 0 <= i < queue.entries.len() implies queue.entries[order[last]].count
            <= (#[trigger] queue.entries[i]).count by {
            assert(order.contains(i));
            let k = choose|k: int| 0 <= k < order.len() && order[k] == i;
            assert(queue.outranks(order[k], order[last]));
        }
    }
}

/// A queue can be restored from its items in turn order: inserting them into a
/// new queue with room for them displaces nothing and gives every item its count.
/// The new turns preserve the order of equal counts, so that the two queues list
/// the same, by rank and by turn, and have the same least count.
pub proof fn law_restored<T: Item>(
    queue: QueueModel<T>,
    capacity: nat,
    turns: Seq<int>,
    order: Seq<int>,
)
    requires
        queue.valid(),
        queue.entries.len() <= u32::MAX,
        queue.entries.len() <= capacity,
        queue.is_turn_order(turns),
        fed(QueueModel::<T>::fresh(capacity), queue.listed(turns)).is_ranking(order),
    ensures
        ({
            let start = QueueModel::<T>::fresh(capacity);
            let list = queue.listed(turns);
            let restored = fed(start, list);
            let same = order.map_values(|k: int| turns[k]);
            &&& restored.valid()
            &&& restored.capacity == capacity
            &&& forall|i: int|
                0 <= i < list.len() ==> fed(start, #[trigger] list.take(i)).evicted_by(
                    list[i].0,
                    list[i].1,
                ) is None
            &&& in_turn(restored)
            &&& forall|key: Seq<u8>| #[trigger] restored.count_of(key) == queue.count_of(key)
            &&& queue.is_ranking(same)
            &&& restored.listed(order) == queue.listed(same)
            &&& forall|ranking: Seq<int>|
                queue.is_ranking(ranking) ==> #[trigger] queue.listed(ranking) == restored.listed(
                    order,
                )
            &&& forall|first: Seq<int>|
                restored.is_turn_order(first) ==> #[trigger] restored.listed(first) == list
            &&& queue.entries.len() > 0 ==> restored.entries[restored.victim()].count
                == queue.entries[queue.victim()].count
        }),
{
    let start = QueueModel::<T>::fresh(capacity);
    let list = queue.listed(turns);
    let restored = fed(start, list);
    let same = order.map_values(|k: int| turns[k]);
    assert forall|i: int, j: int|
        0 <= i < list.len() && 0 <= j < list.len() && (#[trigger] list[i]).0.key() == (
        #[trigger] list[j]).0.key() implies i == j by {
        assert(queue.entries[turns[i]].item.key() == queue.entries[turns[j]].item.key());
    }
    lemma_fed_with_room(start, list);
    law_fed_valid(start, list);
    assert forall|i: int, j: int|
        0 <= i < restored.entries.len() && 0 <= j < restored.entries.len() && (
        #[trigger] restored.entries[i]).item.key() == (
        #[trigger] restored.entries[j]).item.key() implies i == j by {
        assert(list[i].0.key() == list[j].0.key());
    }
    assert forall|key: Seq<u8>| #[trigger] restored.count_of(key) == queue.count_of(key) by {
        if restored.tracks(key) {
            let k = restored.slot_of(key);
            assert(restored.tracks_at(k, key));
            assert(queue.tracks_at(turns[k], key));
            queue.lemma_slot_of(turns[k], key);
            restored.lemma_slot_of(k, key);
        }
        if queue.tracks(key) {
            let i = queue.slot_of(key);
            assert(queue.tracks_at(i, key));
            assert(turns.contains(i));
            let k = choose|k: int| 0 <= k < turns.len() && turns[k] == i;
            assert(restored.entries[k].item == list[k].0);
            assert(restored.tracks_at(k, key));
        }
    }
    assert(queue.is_ranking(same)) by {
        assert forall|i: int| 0 <= i < queue.entries.len() implies #[trigger] same.contains(i) by {
            assert(turns.contains(i));
            let k = choose|k: int| 0 <= k < turns.len() && turns[k] == i;
            assert(order.contains(k));
            let p = choose|p: int| 0 <= p < order.len() && order[p] == k;
            assert(same[p] == i);
        }
        assert forall|j: int, k: int|
            0 <= j < same.len() && 0 <= k < same.len() && #[trigger] same[j]
                == #[trigger] same[k] implies j == k by {
            assert(turns[order[j]] == turns[order[k]]);
            assert(order[j] == order[k]);
        }
        assert forall|j: int, k: int| 0 <= j <= k < same.len() implies queue.outranks(
            #[trigger] same[j],
            #[trigger] same[k],
        ) by {
            let a = order[j];
            let b = order[k];
            assert(restored.outranks(a, b));
            if restored.entries[a].count == restored.entries[b].count {
                assert(a <= b);
                assert(queue.no_younger(turns[a], turns[b]));
            }
        }
    }
    assert(restored.listed(order) =~= queue.listed(same));
    assert forall|ranking: Seq<int>|
        queue.is_ranking(ranking) implies #[trigger] queue.listed(ranking) == restored.listed(
        order,
    ) by {
        law_one_ranking(queue, ranking, same);
    }
    assert forall|i: int| 0 <= i < list.len() implies fed(start, #[trigger] list.take(i)).evicted_by(
        list[i].0,
        list[i].1,
    ) is None by {
        let part = list.take(i);
        assert forall|a: int, b: int|
            0 <= a < part.len() && 0 <= b < part.len() && (#[trigger] part[a]).0.key() == (
            #[trigger] part[b]).0.key() implies a == b by {
            assert(part[a] == list[a] && part[b] == list[b]);
        }
        lemma_fed_with_room(start, part);
    }
    let slots = Seq::new(list.len(), |k: int| k);
    assert forall|k: int| 0 <= k < slots.len() implies #[trigger] slots.contains(k) by {
        assert(slots[k] == k);
    }
    assert(restored.is_turn_order(slots));
    assert(restored.listed(slots) =~= list);
    assert forall|first: Seq<int>|
        restored.is_turn_order(first) implies #[trigger] restored.listed(first) == list by {
        law_one_turn_order(restored, first, slots);
    }
    if queue.entries.len() > 0 {
        queue.lemma_victim_is_least();
        restored.lemma_victim_is_least();
        assert(turns.contains(queue.victim()));
        let k = choose|k: int| 0 <= k < turns.len() && turns[k] == queue.victim();
        assert(restored.entries[k].count == list[k].1);
        let v = restored.victim();
        assert(restored.entries[v].count == list[v].1);
        assert(restored.entries[v].count <= restored.entries[k].count);
        assert(queue.entries[queue.victim()].count <= queue.entries[turns[v]].count);
    }
}

/// A call that may change a queue.
pub enum Change<T> {
    Upsert { item: T, count: u64 },
    Update { key: ItemKey, count: u64 },
    Relocate,
}

/// What a call gives back.
pub enum Answer<T> {
    Evicted(Option<T>),
    Present(bool),
    Done,
}

/// The call takes the queue from `before` to `after` and gives `answer`, as
/// `upsert`, `update_if_present` and `realloc_large_heap_allocated_objects` state.
pub open spec fn follows<T: Item>(
    before: TopKQueue<T>,
    change: Change<T>,
    after: TopKQueue<T>,
    answer: Answer<T>,
) -> bool {
    &&& after.hash_state() == before.hash_state()
    &&& match change {
        Change::Upsert { item, count } => {
            &&& after@ == before@.upserted(item, count)
            &&& answer == Answer::Evicted(before@.evicted_by(item, count))
        },
        Change::Update { key, count } => {
            &&& after@ == before@.updated(key, count)
            &&& answer == Answer::<T>::Present(before@.tracks(key))
        },
        Change::Relocate => after@ == before@ && answer == Answer::<T>::Done,
    }
}

/// The states of a queue under a series of calls, and the answers to them.
pub open spec fn is_history<T: Item>(
    queues: Seq<TopKQueue<T>>,
    changes: Seq<Change<T>>,
    answers: Seq<Answer<T>>,
) -> bool {
    &&& queues.len() == changes.len() + 1
    &&& answers.len() == changes.len()
    &&& forall|i: int|
        0 <= i < changes.len() ==> follows(
            queues[i],
            #[trigger] changes[i],
            queues[i + 1],
            answers[i],
        )
}

/// Two queues show the same at every point: the same entries in the same slots, with
/// the same heap, and so the same counts, the same least count and the same next
/// victim; and they list the same, by rank and by turn.
pub open spec fn alike<T: Item>(p: Seq<TopKQueue<T>>, q: Seq<TopKQueue<T>>) -> bool {
    &&& p.len() == q.len()
    &&& forall|i: int| 0 <= i < p.len() ==> (#[trigger] p[i])@ == q[i]@
    &&& forall|i: int, first: Seq<int>, second: Seq<int>|
        0 <= i < p.len() && p[i]@.is_ranking(first) && q[i]@.is_ranking(second)
            ==> #[trigger] p[i]@.listed(first) == #[trigger] q[i]@.listed(second)
    &&& forall|i: int, first: Seq<int>, second: Seq<int>|
        0 <= i < p.len() && p[i]@.is_turn_order(first) && q[i]@.is_turn_order(second)
            ==> #[trigger] p[i]@.listed(first) == #[trigger] q[i]@.listed(second)
}

/// Two queues that show the same give the same answers to the same calls, in any
/// series, and go on to show the same.
pub proof fn law_alike_stay_alike<T: Item>(
    p: Seq<TopKQueue<T>>,
    q: Seq<TopKQueue<T>>,
    changes: Seq<Change<T>>,
    p_answers: Seq<Answer<T>>,
    q_answers: Seq<Answer<T>>,
)
    requires
        is_history(p, changes, p_answers),
        is_history(q, changes, q_answers),
        p[0]@ == q[0]@,
    ensures
        p_answers == q_answers,
        alike(p, q),
{
    assert forall|i: int| 0 <= i < p.len() implies (#[trigger] p[i])@ == q[i]@ by {
        lemma_alike_upto(p, q, changes, p_answers, q_answers, i);
    }
    assert forall|i: int| 0 <= i < changes.len() implies p_answers[i] == q_answers[i] by {
        assert(follows(p[i], changes[i], p[i + 1], p_answers[i]));
        assert(follows(q[i], changes[i], q[i + 1], q_answers[i]));
    }
    assert(p_answers =~= q_answers);
    assert forall|i: int, first: Seq<int>, second: Seq<int>|
        0 <= i < p.len() && p[i]@.is_ranking(first) && q[i]@.is_ranking(
            second,
        ) implies #[trigger] p[i]@.listed(first) == #[trigger] q[i]@.listed(second) by {
        law_one_ranking(p[i]@, first, second);
    }
    assert forall|i: int, first: Seq<int>, second: Seq<int>|
        0 <= i < p.len() && p[i]@.is_turn_order(first) && q[i]@.is_turn_order(
            second,
        ) implies #[trigger] p[i]@.listed(first) == #[trigger] q[i]@.listed(second) by {
        law_one_turn_order(p[i]@, first, second);
    }
}

proof fn lemma_alike_upto<T: Item>(
    p: Seq<TopKQueue<T>>,
    q: Seq<TopKQueue<T>>,
    changes: Seq<Change<T>>,
    p_answers: Seq<Answer<T>>,
    q_answers: Seq<Answer<T>>,
    i: int,
)
    requires
        is_history(p, changes, p_answers),
        is_history(q, changes, q_answers),
        p[0]@ == q[0]@,
        0 <= i < p.len(),
    ensures
        p[i]@ == q[i]@,
    decreases i,
{
    if i > 0 {
        lemma_alike_upto(p, q, changes, p_answers, q_answers, i - 1);
        assert(follows(p[i - 1], changes[i - 1], p[i - 1 + 1], p_answers[i - 1]));
        assert(follows(q[i - 1], changes[i - 1], q[i - 1 + 1], q_answers[i - 1]));
    }
}

/// The hasher never shows: new queues of one capacity answer the same calls alike
/// and list the same, whatever they hash with.
pub proof fn law_hasher_never_shows<T: Item>(
    capacity: nat,
    p_hasher: RandomState,
    q_hasher: RandomState,
    p: Seq<TopKQueue<T>>,
    q: Seq<TopKQueue<T>>,
    changes: Seq<Change<T>>,
    p_answers: Seq<Answer<T>>,
    q_answers: Seq<Answer<T>>,
)
    requires
        p[0]@ == QueueModel::<T>::fresh(capacity),
        q[0]@ == QueueModel::<T>::fresh(capacity),
        p[0].hash_state() == p_hasher,
        q[0].hash_state() == q_hasher,
        is_history(p, changes, p_answers),
        is_history(q, changes, q_answers),
    ensures
        p_answers == q_answers,
        alike(p, q),
        p.last().hash_state() == p_hasher,
        q.last().hash_state() == q_hasher,
{
    law_alike_stay_alike(p, q, changes, p_answers, q_answers);
    lemma_hasher_stays(p, changes, p_answers, p.len() - 1);
    lemma_hasher_stays(q, changes, q_answers, q.len() - 1);
}

proof fn lemma_hasher_stays<T: Item>(
    p: Seq<TopKQueue<T>>,
    changes: Seq<Change<T>>,
    answers: Seq<Answer<T>>,
    i: int,
)
    requires
        is_history(p, changes, answers),
        0 <= i < p.len(),
    ensures
        p[i].hash_state() == p[0].hash_state(),
    decreases i,
{
    if i > 0 {
        lemma_hasher_stays(p, changes, answers, i - 1);
        assert(follows(p[i - 1], changes[i - 1], p[i - 1 + 1], answers[i - 1]));
    }
}

/// Relocation never shows: a relocated queue answers every later series of calls as
/// the queue would have without.
pub proof fn law_relocation_never_shows<T: Item>(
    before: TopKQueue<T>,
    after: TopKQueue<T>,
    p: Seq<TopKQueue<T>>,
    q: Seq<TopKQueue<T>>,
    changes: Seq<Change<T>>,
    p_answers: Seq<Answer<T>>,
    q_answers: Seq<Answer<T>>,
)
    requires
        follows(before, Change::Relocate, after, Answer::Done),
        p[0] == before,
        q[0] == after,
        is_history(p, changes, p_answers),
        is_history(q, changes, q_answers),
    ensures
        p_answers == q_answers,
        alike(p, q),
{
    law_alike_stay_alike(p, q, changes, p_answers, q_answers);
}

/// A new queue of any capacity tracks nothing, and has had no insertion.
pub proof fn law_fresh<T: Item>(capacity: nat)
    ensures
        QueueModel::<T>::fresh(capacity).entries.len() == 0,
        QueueModel::<T>::fresh(capacity).heap.len() == 0,
        QueueModel::<T>::fresh(capacity).capacity == capacity,
        QueueModel::<T>::fresh(capacity).sequence == 0,
        QueueModel::<T>::fresh(capacity).valid(),
{
}

/// What a valid queue is like: different slots track different items, there are no
/// more than the capacity, the heap names every slot once, and no slot has a smaller
/// count than the one at half its heap position.
pub proof fn law_valid<T: Item>(queue: QueueModel<T>)
    requires
        queue.valid(),
    ensures
        queue.entries.len() <= queue.capacity,
        forall|i: int, j: int|
            0 <= i < j < queue.entries.len() ==> (#[trigger] queue.entries[i]).item.key() != (
            #[trigger] queue.entries[j]).item.key(),
        queue.heap.len() == queue.entries.len(),
        forall|p: int| 0 <= p < queue.heap.len() ==> 0 <= #[trigger] queue.heap[p] < queue.entries.len(),
        forall|p: int, q: int|
            0 <= p < q < queue.heap.len() ==> #[trigger] queue.heap[p] != #[trigger] queue.heap[q],
        forall|p: int|
            0 < p < queue.heap.len() ==> queue.entries[queue.heap[(p - 1) / 2]].count
                <= queue.entries[#[trigger] queue.heap[p]].count,
{
    let at = heap::levels(queue.heap, queue.counts());
    assert forall|p: int| 0 < p < queue.heap.len() implies queue.entries[queue.heap[(p - 1)
        / 2]].count <= queue.entries[#[trigger] queue.heap[p]].count by {
        assert(heap::edge_ok(at, p));
        assert(0 <= queue.heap[(p - 1) / 2] < queue.entries.len());
    }
}

/// Looking up a key finds the slot whose item has that key, and its count, and
/// nothing where no item has it.
pub proof fn law_lookup<T: Item>(queue: QueueModel<T>, key: Seq<u8>)
    requires
        queue.valid(),
    ensures
        queue.tracks(key) <==> exists|i: int|
            0 <= i < queue.entries.len() && (#[trigger] queue.entries[i]).item.key() == key,
        queue.count_of(key) is Some <==> queue.tracks(key),
        forall|i: int|
            0 <= i < queue.entries.len() && (#[trigger] queue.entries[i]).item.key() == key ==> {
                &&& queue.slot_of(key) == i
                &&& queue.count_of(key) == Some(queue.entries[i].count)
            },
        forall|i: int|
            queue.tracks_at(i, key) <==> 0 <= i < queue.entries.len()
                && queue.entries[i].item.key() == key,
{
    assert forall|i: int|
        0 <= i < queue.entries.len() && (#[trigger] queue.entries[i]).item.key() == key implies {
        &&& queue.tracks(key)
        &&& queue.slot_of(key) == i
        &&& queue.count_of(key) == Some(queue.entries[i].count)
    } by {
        assert(queue.tracks_at(i, key));
        queue.lemma_slot_of(i, key);
    }
    if queue.tracks(key) {
        let i = queue.slot_of(key);
        assert(queue.tracks_at(i, key));
        assert(queue.entries[i].item.key() == key);
    }
}

/// The least count of a queue is that of some entry, and no entry's is smaller.
pub proof fn law_least_count<T: Item>(queue: QueueModel<T>)
    requires
        queue.valid(),
        queue.entries.len() > 0,
    ensures
        0 <= queue.victim() < queue.entries.len(),
        queue.victim() == queue.heap[0],
        forall|j: int|
            0 <= j < queue.entries.len() ==> queue.entries[queue.victim()].count <= (
            #[trigger] queue.entries[j]).count,
{
    queue.lemma_victim_is_least();
}

/// An update of an item that is not tracked changes nothing at all. An update of a
/// tracked one changes its count and nothing else of any entry; every other item is
/// looked up as before.
pub proof fn law_update<T: Item>(queue: QueueModel<T>, key: Seq<u8>, count: u64, other: Seq<u8>)
    requires
        queue.valid(),
    ensures
        ({
            let after = queue.updated(key, count);
            &&& !queue.tracks(key) ==> after == queue
            &&& (forall|i: int|
                0 <= i < queue.entries.len() ==> (#[trigger] queue.entries[i]).item.key() != key)
                ==> after == queue
            &&& queue.tracks(key) ==> after.count_of(key) == Some(count)
            &&& other != key ==> after.count_of(other) == queue.count_of(other)
            &&& after.tracks(other) == queue.tracks(other)
            &&& after.capacity == queue.capacity
            &&& after.sequence == queue.sequence
            &&& after.entries.len() == queue.entries.len()
            &&& forall|i: int|
                0 <= i < queue.entries.len() ==> {
                    &&& (#[trigger] after.entries[i]).item == queue.entries[i].item
                    &&& after.entries[i].sequence == queue.entries[i].sequence
                    &&& after.entries[i].count == if queue.entries[i].item.key() == key {
                        count
                    } else {
                        queue.entries[i].count
                    }
                }
        }),
{
    let after = queue.updated(key, count);
    queue.lemma_updated_valid(key, count);
    law_lookup(queue, key);
    law_lookup(queue, other);
    law_lookup(after, key);
    law_lookup(after, other);
    if queue.tracks(key) {
        let s = queue.slot_of(key);
        assert(queue.tracks_at(s, key));
        assert(after.entries[s].item.key() == key);
        assert forall|i: int|
            0 <= i < queue.entries.len() && queue.entries[i].item.key() == key implies i == s by {
            assert(queue.entries[i].item.key() == queue.entries[s].item.key());
        }
    }
    if queue.tracks(other) {
        let i = queue.slot_of(other);
        assert(queue.tracks_at(i, other));
        assert(after.entries[i].item.key() == other);
    }
    if after.tracks(other) {
        let i = after.slot_of(other);
        assert(after.tracks_at(i, other));
        assert(queue.entries[i].item.key() == other);
    }
}

/// Whether an item is tracked after an insertion, and what leaves. A tracked item
/// stays, and nothing leaves. A new one enters where there is room, and nothing
/// leaves; it enters a full queue exactly where some entry has a smaller count, and
/// then the entry at the root of the heap leaves, and none has a smaller count than
/// that had.
pub proof fn law_upsert_decides<T: Item>(queue: QueueModel<T>, item: T, count: u64)
    requires
        queue.valid(),
    ensures
        ({
            let after = queue.upserted(item, count);
            let evicted = queue.evicted_by(item, count);
            let room = queue.tracks(item.key()) || queue.entries.len() < queue.capacity;
            let beats = exists|j: int|
                0 <= j < queue.entries.len() && (#[trigger] queue.entries[j]).count < count;
            &&& after.tracks(item.key()) <==> room || beats
            &&& evicted is Some <==> !room && beats
            &&& !room && !beats ==> after == queue
            &&& evicted matches Some(gone) ==> {
                &&& gone == queue.entries[queue.heap[0]].item
                &&& queue.count_of(gone.key()) is Some
                &&& queue.count_of(gone.key())->0 < count
                &&& forall|j: int|
                    0 <= j < queue.entries.len() ==> queue.count_of(gone.key())->0 <= (
                    #[trigger] queue.entries[j]).count
                &&& !after.tracks(gone.key())
            }
            &&& after.tracks(item.key()) ==> after.count_of(item.key()) == Some(count)
            &&& after.capacity == queue.capacity
            &&& after.entries.len() == if !queue.tracks(item.key()) && queue.entries.len()
                < queue.capacity {
                (queue.entries.len() + 1) as nat
            } else {
                queue.entries.len()
            }
        }),
{
    law_upsert_reads_back(queue, item, count);
    let key = item.key();
    if queue.entries.len() > 0 {
        queue.lemma_victim_is_least();
        let v = queue.victim();
        if count > queue.entries[v].count {
            assert(exists|j: int|
                0 <= j < queue.entries.len() && (#[trigger] queue.entries[j]).count < count);
        }
    }
    if queue.evicted_by(item, count) is Some {
        law_evicted_is_least(queue, item, count);
    }
}

/// What an insertion leaves of the entries. Every slot keeps its entry, but for that
/// of the item, and that which the new item took over from the evicted one: such a
/// slot holds the item. Only the count of a tracked item changes.
pub proof fn law_upsert_entries<T: Item>(queue: QueueModel<T>, item: T, count: u64)
    requires
        queue.valid(),
    ensures
        ({
            let after = queue.upserted(item, count);
            let evicted = queue.evicted_by(item, count);
            &&& forall|i: int|
                0 <= i < after.entries.len() && (#[trigger] after.entries[i]).item.key()
                    != item.key() ==> i < queue.entries.len() && after.entries[i]
                    == queue.entries[i]
            &&& forall|i: int|
                0 <= i < queue.entries.len() && (#[trigger] queue.entries[i]).item.key()
                    == item.key() ==> {
                    &&& after.entries[i].item == queue.entries[i].item
                    &&& after.entries[i].sequence == queue.entries[i].sequence
                    &&& after.entries[i].count == count
                }
            &&& !queue.tracks(item.key()) ==> forall|i: int|
                0 <= i < after.entries.len() && (#[trigger] after.entries[i]).item.key()
                    == item.key() ==> {
                    &&& after.entries[i].item == item
                    &&& after.entries[i].count == count
                    &&& i == if evicted is Some {
                        queue.heap[0]
                    } else {
                        queue.entries.len() as int
                    }
                }
        }),
{
    let after = queue.upserted(item, count);
    let key = item.key();
    law_lookup(queue, key);
    if queue.entries.len() > 0 {
        queue.lemma_victim_is_least();
    }
    if queue.tracks(key) {
        let s = queue.slot_of(key);
        assert(queue.tracks_at(s, key));
        assert(after.entries[s].item.key() == key);
        assert forall|i: int|
            0 <= i < queue.entries.len() && (#[trigger] queue.entries[i]).item.key()
                == key implies i == s by {
            assert(queue.entries[s].item.key() == key);
        }
    } else {
        assert forall|i: int| 0 <= i < queue.entries.len() implies (
        #[trigger] queue.entries[i]).item.key() != key by {}
    }
}

/// Every insertion that starts to track an item advances the turn by one, also where
/// it displaces another, and the new entry has that turn; after the last turn comes
/// turn zero. An insertion that starts to track nothing leaves the turn and the
/// turns of all entries alone.
pub proof fn law_turn_advances<T: Item>(queue: QueueModel<T>, item: T, count: u64)
    requires
        queue.valid(),
    ensures
        ({
            let after = queue.upserted(item, count);
            let entered = !queue.tracks(item.key()) && after.tracks(item.key());
            &&& entered && queue.sequence < u32::MAX ==> after.sequence == queue.sequence + 1
            &&& entered && queue.sequence == u32::MAX ==> after.sequence == 0
            &&& entered ==> forall|i: int|
                0 <= i < after.entries.len() && (#[trigger] after.entries[i]).item.key()
                    == item.key() ==> after.entries[i].sequence == after.sequence
            &&& !entered ==> after.sequence == queue.sequence
            &&& !entered ==> forall|i: int|
                0 <= i < queue.entries.len() ==> (#[trigger] after.entries[i]).sequence
                    == queue.entries[i].sequence
        }),
{
    let after = queue.upserted(item, count);
    let key = item.key();
    law_upsert_decides(queue, item, count);
    law_lookup(queue, key);
    if queue.entries.len() > 0 {
        queue.lemma_victim_is_least();
    }
    if queue.tracks(key) {
        assert(queue.tracks_at(queue.slot_of(key), key));
    } else {
        assert forall|i: int| 0 <= i < queue.entries.len() implies (
        #[trigger] queue.entries[i]).item.key() != key by {}
    }
}

/// How the heap follows an insertion. The slot of a tracked item sinks where its
/// count does not fall, and rises where it does not grow; a slot of its own rises
/// from the end; the slot that a new item took over sinks from the root.
pub proof fn law_heap_follows<T: Item>(queue: QueueModel<T>, item: T, count: u64)
    requires
        queue.valid(),
    ensures
        ({
            let after = queue.upserted(item, count);
            let counts = Seq::new(after.entries.len(), |i: int| after.entries[i].count);
            let len = queue.entries.len() as int;
            &&& forall|p: int|
                0 <= p < len && queue.entries[#[trigger] queue.heap[p]].item.key() == item.key()
                    ==> {
                    let old_count = queue.entries[queue.heap[p]].count;
                    &&& count >= old_count ==> heap::sank(queue.heap, after.heap, counts, p)
                    &&& count <= old_count ==> heap::rose(queue.heap, after.heap, counts, p)
                    &&& count >= old_count ==> after.heap == heap::lowered(queue.heap, counts, p)
                    &&& count <= old_count ==> after.heap == heap::raised(queue.heap, counts, p)
                }
            &&& after.entries.len() > len ==> heap::rose(
                queue.heap.push(len),
                after.heap,
                counts,
                len,
            )
            &&& queue.evicted_by(item, count) is Some ==> heap::sank(
                queue.heap,
                after.heap,
                counts,
                0,
            )
            &&& after.entries.len() > len ==> after.heap == heap::raised(
                queue.heap.push(len),
                counts,
                len,
            )
            &&& queue.evicted_by(item, count) is Some ==> after.heap == heap::lowered(
                queue.heap,
                counts,
                0,
            )
        }),
{
    let after = queue.upserted(item, count);
    let counts = Seq::new(after.entries.len(), |i: int| after.entries[i].count);
    let len = queue.entries.len() as int;
    let key = item.key();
    law_lookup(queue, key);
    assert(after.counts() =~= counts);
    if queue.tracks(key) {
        let s = queue.slot_of(key);
        assert(queue.tracks_at(s, key));
        assert(queue.entries[s].item.key() == key);
        queue.lemma_recounted_heap(s, count);
        let place = heap::place_of(queue.heap, s);
        heap::lemma_has_place(queue.heap, len, s);
        let sunk = heap::lowered(queue.heap, counts, place);
        assert forall|p: int|
            0 <= p < len && queue.entries[#[trigger] queue.heap[p]].item.key()
                == key implies p == place by {
            assert(0 <= queue.heap[p] < len);
            assert(queue.heap[p] == s);
            heap::lemma_place_of(queue.heap, len, p);
        }
        heap::law_lowered_sinks(queue.heap, counts, place);
        heap::law_raised_rises(queue.heap, counts, place);
        if count >= queue.entries[s].count {
            queue.lemma_raised_count(s, count);
            assert(after.heap == sunk);
        }
        if count <= queue.entries[s].count {
            queue.lemma_lowered_count(s, count);
            assert(after.heap == heap::raised(queue.heap, counts, place));
        }
    } else if queue.entries.len() < queue.capacity {
        queue.lemma_extended_heap(item, count);
        heap::law_raised_rises(queue.heap.push(len), counts, len);
    } else if queue.displaces(key, count) {
        queue.lemma_displaced_heap(item, count);
        heap::law_lowered_sinks(queue.heap, counts, 0);
    }
}

/// A list of borrowed items is read off item by item.
pub proof fn law_pairs<T: Item>(items: Seq<(&T, u64)>)
    ensures
        model::pairs(items).len() == items.len(),
        forall|k: int|
            0 <= k < items.len() ==> (#[trigger] model::pairs(items)[k]).0 == *items[k].0
                && model::pairs(items)[k].1 == items[k].1,
{
}

/// What `iter` and `iter_by_sequence` list: as many items as there are entries, and
/// each entry (here slot `i`) with its item and its count; nothing else is listed
/// (here at `k`), and nothing twice (here at `j` and `k`).
pub proof fn law_lists_every_entry<T: Item>(
    queue: QueueModel<T>,
    items: Seq<(&T, u64)>,
    i: int,
    j: int,
    k: int,
)
    requires
        queue.valid(),
        (exists|order: Seq<int>|
            queue.is_ranking(order) && #[trigger] queue.listed(order) == model::pairs(items)) || (
        exists|order: Seq<int>|
            queue.is_turn_order(order) && #[trigger] queue.listed(order) == model::pairs(items)),
    ensures
        items.len() == queue.entries.len(),
        0 <= i < queue.entries.len() ==> exists|p: int|
            0 <= p < items.len() && *(#[trigger] items[p]).0 == queue.entries[i].item && items[p].1
                == queue.entries[i].count,
        0 <= k < items.len() ==> exists|s: int|
            0 <= s < queue.entries.len() && *items[k].0 == (#[trigger] queue.entries[s]).item
                && items[k].1 == queue.entries[s].count,
        0 <= j < k < items.len() ==> items[j].0.key() != items[k].0.key(),
{
    let order = if exists|order: Seq<int>|
        queue.is_ranking(order) && #[trigger] queue.listed(order) == model::pairs(items) {
        choose|order: Seq<int>|
            queue.is_ranking(order) && #[trigger] queue.listed(order) == model::pairs(items)
    } else {
        choose|order: Seq<int>|
            queue.is_turn_order(order) && #[trigger] queue.listed(order) == model::pairs(items)
    };
    law_pairs(items);
    assert(queue.listed(order).len() == order.len());
    if 0 <= i < queue.entries.len() {
        assert(order.contains(i));
        let p = choose|p: int| 0 <= p < order.len() && order[p] == i;
        lemma_listed_slot(queue, order, items, p, i);
        assert(*items[p].0 == queue.entries[i].item);
    }
    if 0 <= k < items.len() {
        lemma_listed_slot(queue, order, items, k, 0);
    }
    if 0 <= j < k < items.len() {
        lemma_listed_slot(queue, order, items, j, 0);
        if items[j].0.key() == items[k].0.key() {
            assert(queue.entries[order[j]].item.key() == queue.entries[order[k]].item.key());
            assert(order[j] == order[k]);
        }
    }
}

/// The order in which `iter` lists: of the items at `j` and, later, at `k`, those of
/// slots `a` and `b`, the first has the larger count, or an equal count and an
/// earlier turn, or both equal and the lower slot.
pub proof fn law_iter<T: Item>(
    queue: QueueModel<T>,
    items: Seq<(&T, u64)>,
    j: int,
    k: int,
    a: int,
    b: int,
)
    requires
        queue.valid(),
        exists|order: Seq<int>|
            queue.is_ranking(order) && #[trigger] queue.listed(order) == model::pairs(items),
        0 <= j < k < items.len(),
        0 <= a < queue.entries.len(),
        0 <= b < queue.entries.len(),
        items[j].0.key() == queue.entries[a].item.key(),
        items[k].0.key() == queue.entries[b].item.key(),
    ensures
        items[j].1 == queue.entries[a].count,
        items[k].1 == queue.entries[b].count,
        queue.entries[a].count >= queue.entries[b].count,
        queue.entries[a].count == queue.entries[b].count ==> queue.entries[a].sequence
            <= queue.entries[b].sequence,
        queue.entries[a].count == queue.entries[b].count && queue.entries[a].sequence
            == queue.entries[b].sequence ==> a < b,
{
    let order = choose|order: Seq<int>|
        queue.is_ranking(order) && #[trigger] queue.listed(order) == model::pairs(items);
    lemma_listed_slot(queue, order, items, j, a);
    lemma_listed_slot(queue, order, items, k, b);
    assert(queue.outranks(order[j], order[k]));
    assert(order[j] != order[k]);
}

/// The order in which `iter_by_sequence` lists: of the items at `j` and, later, at
/// `k`, those of slots `a` and `b`, the first has the earlier turn, whatever the
/// counts, or the same turn and the lower slot.
pub proof fn law_iter_by_sequence<T: Item>(
    queue: QueueModel<T>,
    items: Seq<(&T, u64)>,
    j: int,
    k: int,
    a: int,
    b: int,
)
    requires
        queue.valid(),
        exists|order: Seq<int>|
            queue.is_turn_order(order) && #[trigger] queue.listed(order) == model::pairs(items),
        0 <= j < k < items.len(),
        0 <= a < queue.entries.len(),
        0 <= b < queue.entries.len(),
        items[j].0.key() == queue.entries[a].item.key(),
        items[k].0.key() == queue.entries[b].item.key(),
    ensures
        items[j].1 == queue.entries[a].count,
        items[k].1 == queue.entries[b].count,
        queue.entries[a].sequence <= queue.entries[b].sequence,
        queue.entries[a].sequence == queue.entries[b].sequence ==> a < b,
{
    let order = choose|order: Seq<int>|
        queue.is_turn_order(order) && #[trigger] queue.listed(order) == model::pairs(items);
    lemma_listed_slot(queue, order, items, j, a);
    lemma_listed_slot(queue, order, items, k, b);
    assert(queue.no_younger(order[j], order[k]));
    assert(order[j] != order[k]);
}

/// A listing reads off the slots of its order.
proof fn lemma_listed_slot<T: Item>(
    queue: QueueModel<T>,
    order: Seq<int>,
    items: Seq<(&T, u64)>,
    k: int,
    i: int,
)
    requires
        queue.valid(),
        crate::ranking::is_arrangement(order, 0, queue.entries.len() as int),
        queue.listed(order) == model::pairs(items),
        0 <= k < items.len(),
    ensures
        items.len() == order.len(),
        0 <= order[k] < queue.entries.len(),
        *items[k].0 == queue.entries[order[k]].item,
        items[k].1 == queue.entries[order[k]].count,
        0 <= i < queue.entries.len() && items[k].0.key() == queue.entries[i].item.key()
            ==> order[k] == i,
{
    law_pairs(items);
    let list = queue.listed(order);
    assert(list.len() == model::pairs(items).len());
    assert(list[k] == model::pairs(items)[k]);
    assert(0 <= order[k] < queue.entries.len());
    if 0 <= i < queue.entries.len() && items[k].0.key() == queue.entries[i].item.key() {
        assert(queue.entries[order[k]].item.key() == queue.entries[i].item.key());
    }
}

/// A new queue that has room for a series of different items lists by sequence
/// exactly that series, whatever the counts.
pub proof fn law_lists_the_series<T: Item>(
    capacity: nat,
    offers: Seq<(T, u64)>,
    items: Seq<(&T, u64)>,
)
    requires
        offers.len() <= capacity,
        offers.len() <= u32::MAX,
        forall|i: int, j: int|
            0 <= i < j < offers.len() ==> (#[trigger] offers[i]).0.key() != (
            #[trigger] offers[j]).0.key(),
        exists|order: Seq<int>|
            fed(QueueModel::<T>::fresh(capacity), offers).is_turn_order(order)
                && #[trigger] fed(QueueModel::<T>::fresh(capacity), offers).listed(order)
                == model::pairs(items),
    ensures
        items.len() == offers.len(),
        forall|k: int|
            0 <= k < offers.len() ==> *(#[trigger] items[k]).0 == offers[k].0 && items[k].1
                == offers[k].1,
{
    let start = QueueModel::<T>::fresh(capacity);
    let queue = fed(start, offers);
    law_fed_valid(start, offers);
    lemma_fed_with_room(start, offers);
    let order = choose|order: Seq<int>|
        queue.is_turn_order(order) && #[trigger] queue.listed(order) == model::pairs(items);
    let slots = Seq::new(offers.len(), |k: int| k);
    assert forall|k: int| 0 <= k < slots.len() implies #[trigger] slots.contains(k) by {
        assert(slots[k] == k);
    }
    assert(queue.is_turn_order(slots));
    law_one_turn_order(queue, order, slots);
    law_pairs(items);
    assert forall|k: int| 0 <= k < offers.len() implies *(#[trigger] items[k]).0 == offers[k].0
        && items[k].1 == offers[k].1 by {
        assert(queue.listed(order)[k] == model::pairs(items)[k]);
        assert(order[k] == k);
        assert(queue.entries[k].item == offers[k].0);
    }
}

/// In the first 2^32 - 1 insertions no entry has a later turn than the latest.
pub proof fn law_turns_of_a_series<T: Item>(capacity: nat, offers: Seq<(T, u64)>)
    requires
        offers.len() <= u32::MAX,
    ensures
        ({
            let queue = fed(QueueModel::<T>::fresh(capacity), offers);
            &&& queue.sequence <= offers.len()
            &&& forall|i: int|
                0 <= i < queue.entries.len() ==> 1 <= (#[trigger] queue.entries[i]).sequence
                    <= queue.sequence
            &&& forall|i: int, j: int|
                0 <= i < j < queue.entries.len() ==> (#[trigger] queue.entries[i]).sequence != (
                #[trigger] queue.entries[j]).sequence
        }),
    decreases offers.len(),
{
    let start = QueueModel::<T>::fresh(capacity);
    if offers.len() > 0 {
        let rest = offers.drop_last();
        law_turns_of_a_series(capacity, rest);
        law_fed_valid(start, rest);
        let queue = fed(start, rest);
        let item = offers.last().0;
        let count = offers.last().1;
        let after = queue.upserted(item, count);
        queue.lemma_upserted_valid(item, count);
        law_turn_advances(queue, item, count);
        law_upsert_entries(queue, item, count);
        law_upsert_decides(queue, item, count);
        law_lookup(queue, item.key());
        law_lookup(after, item.key());
        assert forall|i: int| 0 <= i < after.entries.len() implies 1 <= (
        #[trigger] after.entries[i]).sequence <= after.sequence by {
            if after.entries[i].item.key() != item.key() {
                assert(after.entries[i] == queue.entries[i]);
            }
        }
        assert forall|i: int, j: int| 0 <= i < j < after.entries.len() implies (
        #[trigger] after.entries[i]).sequence != (#[trigger] after.entries[j]).sequence by {
            assert(after.entries[i].item.key() != after.entries[j].item.key());
            if after.entries[i].item.key() != item.key() {
                assert(after.entries[i] == queue.entries[i]);
            }
            if after.entries[j].item.key() != item.key() {
                assert(after.entries[j] == queue.entries[j]);
            }
        }
    }
}

/// An item that enters, also by displacing another, is listed behind all items with
/// the same count, and last of all by sequence, as long as turns do not wrap around.
pub proof fn law_newcomer_comes_last<T: Item>(
    queue: QueueModel<T>,
    item: T,
    count: u64,
    ranked: Seq<(&T, u64)>,
    by_turn: Seq<(&T, u64)>,
    at: int,
    turn_at: int,
)
    requires
        queue.valid(),
        forall|i: int|
            0 <= i < queue.entries.len() ==> (#[trigger] queue.entries[i]).sequence
                <= queue.sequence,
        queue.sequence < u32::MAX,
        !queue.tracks(item.key()),
        queue.upserted(item, count).tracks(item.key()),
        exists|order: Seq<int>|
            queue.upserted(item, count).is_ranking(order) && #[trigger] queue.upserted(
                item,
                count,
            ).listed(order) == model::pairs(ranked),
        exists|order: Seq<int>|
            queue.upserted(item, count).is_turn_order(order) && #[trigger] queue.upserted(
                item,
                count,
            ).listed(order) == model::pairs(by_turn),
        0 <= at < ranked.len(),
        ranked[at].0.key() == item.key(),
        0 <= turn_at < by_turn.len(),
        by_turn[turn_at].0.key() == item.key(),
    ensures
        ranked[at].1 == count,
        forall|j: int| 0 <= j < ranked.len() && (#[trigger] ranked[j]).1 == count ==> j <= at,
        forall|j: int| 0 <= j < ranked.len() && (#[trigger] ranked[j]).1 > count ==> j < at,
        turn_at == by_turn.len() - 1,
{
    let after = queue.upserted(item, count);
    queue.lemma_upserted_valid(item, count);
    law_turn_advances(queue, item, count);
    law_upsert_entries(queue, item, count);
    law_lookup(after, item.key());
    let s = after.slot_of(item.key());
    assert(after.tracks_at(s, item.key()));
    assert(after.entries[s].item.key() == item.key());
    let order = choose|order: Seq<int>|
        after.is_ranking(order) && #[trigger] after.listed(order) == model::pairs(ranked);
    let turns = choose|order: Seq<int>|
        after.is_turn_order(order) && #[trigger] after.listed(order) == model::pairs(by_turn);
    lemma_listed_slot(after, order, ranked, at, s);
    lemma_listed_slot(after, turns, by_turn, turn_at, s);
    assert forall|j: int| 0 <= j < ranked.len() && (#[trigger] ranked[j]).1 >= count implies j
        <= at by {
        if j > at {
            lemma_listed_slot(after, order, ranked, j, s);
            let a = order[j];
            law_iter(after, ranked, at, j, s, a);
            if a != s {
                assert(after.entries[a].item.key() != after.entries[s].item.key());
                assert(after.entries[a] == queue.entries[a]);
            }
        }
    }
    if turn_at < by_turn.len() - 1 {
        let k = by_turn.len() - 1;
        lemma_listed_slot(after, turns, by_turn, k, s);
        let b = turns[k];
        law_iter_by_sequence(after, by_turn, turn_at, k, s, b);
        if b != s {
            assert(after.entries[b].item.key() != after.entries[s].item.key());
            assert(after.entries[b] == queue.entries[b]);
        }
        assert(false);
    }
}

}
