use ahash::RandomState;
use heavykeeper::hashing::{Item, ItemKey, Matches};
use heavykeeper::memory::Relocations;
use heavykeeper::priority_queue::{Slot, TopKQueue};
use heavykeeper::Reallocator;

#[test]
fn test_basic_insertion() {
    let mut queue = TopKQueue::with_capacity(2);
    queue.upsert("a", 1);
    queue.upsert("b", 2);

    let items = queue.iter();
    assert_eq!(items, vec![(&"b", 2), (&"a", 1)]);
}

#[test]
fn test_update_existing() {
    let mut queue = TopKQueue::with_capacity_and_hasher(2, RandomState::new());
    queue.upsert("a", 1);
    queue.upsert("b", 2);
    queue.upsert("a", 3); // Update a's count

    let items = queue.iter();
    assert_eq!(items, vec![(&"a", 3), (&"b", 2)]);
}

#[test]
fn test_heap_cleanup() {
    let mut queue = TopKQueue::with_capacity_and_hasher(2, RandomState::new());

    // Insert initial items
    queue.upsert("a", 1);
    queue.upsert("b", 2);

    // Update 'a' multiple times
    queue.upsert("a", 3);
    queue.upsert("a", 4);
    queue.upsert("a", 5);

    // Insert new item with higher count
    queue.upsert("c", 6);

    // Check heap size vs items size
    assert_eq!(queue.heap().len(), 2, "Expected 2 items");

    let items = queue.iter();
    assert_eq!(items, vec![(&"c", 6), (&"a", 5)]);
}

#[test]
fn test_insertion_order() {
    let mut queue = TopKQueue::with_capacity_and_hasher(3, RandomState::new());

    // Insert items with same count in specific order
    queue.upsert("a", 1);
    queue.upsert("b", 1);
    queue.upsert("c", 1);

    let items = queue.iter();
    assert_eq!(items, vec![(&"a", 1), (&"b", 1), (&"c", 1)]);
}

#[test]
fn test_heap_consistency() {
    let mut queue = TopKQueue::with_capacity_and_hasher(2, RandomState::new());

    // Fill queue
    queue.upsert("a", 1);
    queue.upsert("b", 2);

    // Update existing item multiple times
    for i in 3..10 {
        queue.upsert("a", i);
    }

    // Try to insert new item
    queue.upsert("c", 5);

    // Verify min_count is accurate
    assert_eq!(queue.min_count(), 5);
}

#[test]
fn test_capacity_overflow() {
    let mut queue = TopKQueue::with_capacity_and_hasher(2, RandomState::new());

    // Insert more items than capacity
    queue.upsert("a", 1);
    queue.upsert("b", 2);
    queue.upsert("c", 3);
    queue.upsert("d", 4);
    queue.upsert("e", 5);

    assert_eq!(queue.len(), 2, "Queue should maintain capacity");

    let items = queue.iter();
    assert_eq!(items, vec![(&"e", 5), (&"d", 4)]);
}

#[test]
fn test_repeated_updates() {
    let mut queue = TopKQueue::with_capacity_and_hasher(2, RandomState::new());

    // Insert and update same item repeatedly
    for i in 1..100 {
        queue.upsert("a", i);
    }

    queue.upsert("b", 50);

    assert_eq!(queue.len(), 2);

    let items = queue.iter();
    assert_eq!(items, vec![(&"a", 99), (&"b", 50)]);
}

#[test]
fn test_heap_property() {
    let mut queue = TopKQueue::with_capacity_and_hasher(10, RandomState::new());

    // Insert in reverse order to test heap maintenance
    for i in (0..=10).rev() {
        queue.upsert(format!("item{}", i), i as u64);
    }

    // Verify heap property: parent should be <= children for min-heap
    for i in 1..queue.heap().len() {
        let parent_idx = (i - 1) >> 1;
        if parent_idx > 0 {
            // Skip root's parent
            let parent_count = queue.slot_count(queue.heap()[parent_idx]);
            let child_count = queue.slot_count(queue.heap()[i]);
            assert!(
                parent_count <= child_count,
                "Heap property violated: parent count {} at index {} is greater than child count {} at index {}",
                parent_count,
                parent_idx,
                child_count,
                i
            );
        }
    }

    // Verify items are stored in descending order (highest counts first)
    let items = queue.iter();
    for i in 0..items.len() - 1 {
        assert!(
            items[i].1 >= items[i + 1].1,
            "Items not properly ordered by count: {} before {}",
            items[i].1,
            items[i + 1].1
        );
    }
}

#[test]
fn new_queue_is_empty() {
    let queue: TopKQueue<&str> = TopKQueue::with_capacity(3);
    assert_eq!(queue.len(), 0);
    assert_eq!(queue.min_count(), 0);
    assert!(!queue.is_full());
    assert!(queue.iter().is_empty());
    assert!(queue.iter_by_sequence().is_empty());
    assert_eq!(queue.get("a"), None);
    assert!(!queue.contains("a"));
    assert_eq!(queue.find_slot_linear("a"), None);
}

#[test]
fn queue_without_room_tracks_nothing() {
    let mut queue: TopKQueue<&str> = TopKQueue::with_capacity(0);
    assert!(queue.is_full());
    assert_eq!(queue.upsert("a", 9), None);
    assert_eq!(queue.len(), 0);
    assert!(!queue.contains("a"));
    assert!(!queue.update_if_present("a", 10));
    assert_eq!(queue.min_count(), 0);
}

#[test]
fn insertion_is_read_back() {
    let mut queue = TopKQueue::with_capacity(2);
    assert_eq!(queue.upsert("a", 7), None);
    assert_eq!(queue.get("a"), Some(7));
    assert_eq!(queue.get("b"), None);
    assert_eq!(queue.upsert("a", 3), None);
    assert_eq!(queue.get("a"), Some(3));
    assert_eq!(queue.len(), 1);
}

#[test]
fn displaced_item_is_handed_back() {
    let mut queue = TopKQueue::with_capacity(2);
    queue.upsert("a", 4);
    queue.upsert("b", 9);
    assert!(queue.is_full());
    // Too small, then equal: both are turned down.
    assert_eq!(queue.upsert("c", 3), None);
    assert_eq!(queue.upsert("c", 4), None);
    assert!(!queue.contains("c"));
    assert_eq!(queue.upsert("c", 5), Some("a"));
    assert!(!queue.contains("a"));
    assert_eq!(queue.get("b"), Some(9));
    assert_eq!(queue.get("c"), Some(5));
    assert_eq!(queue.min_count(), 5);
}

#[test]
fn repeated_insertion_changes_nothing() {
    let mut queue = TopKQueue::with_capacity(2);
    queue.upsert("a", 4);
    queue.upsert("b", 9);
    queue.upsert("c", 6);
    let before: Vec<(&str, u64)> = queue.iter().into_iter().map(|(k, c)| (*k, c)).collect();
    assert_eq!(queue.upsert("c", 6), None);
    assert_eq!(queue.upsert("a", 4), None);
    let after: Vec<(&str, u64)> = queue.iter().into_iter().map(|(k, c)| (*k, c)).collect();
    assert_eq!(before, after);
}

#[test]
fn least_count_rises() {
    let mut queue = TopKQueue::with_capacity(3);
    for i in 0..3u64 {
        queue.upsert(i, 10 * i + 1);
    }
    let mut least = queue.min_count();
    for i in 3..50u64 {
        queue.upsert(i, (i * 37) % 101);
        assert!(queue.min_count() >= least);
        least = queue.min_count();
    }
}

#[test]
fn update_raises_a_tracked_count() {
    let mut queue = TopKQueue::with_capacity(3);
    queue.upsert("a", 1);
    queue.upsert("b", 2);
    assert!(queue.update_if_present("a", 8));
    assert_eq!(queue.get("a"), Some(8));
    assert_eq!(queue.min_count(), 2);
    assert!(queue.update_if_present("a", 8));
    assert!(!queue.update_if_present("z", 8));
    assert_eq!(queue.len(), 2);
    let items = queue.iter();
    assert_eq!(items, vec![(&"a", 8), (&"b", 2)]);
}

#[test]
fn updates_keep_the_turn() {
    let mut queue = TopKQueue::with_capacity(3);
    queue.upsert("a", 5);
    queue.upsert("b", 1);
    queue.upsert("c", 5);
    queue.upsert("b", 5);
    assert_eq!(queue.iter(), vec![(&"a", 5), (&"b", 5), (&"c", 5)]);
    assert_eq!(queue.iter_by_sequence(), vec![(&"a", 5), (&"b", 5), (&"c", 5)]);
    // A newcomer is listed behind items with the same count.
    queue.upsert("a", 2);
    assert_eq!(queue.upsert("d", 5), Some("a"));
    assert_eq!(queue.iter(), vec![(&"b", 5), (&"c", 5), (&"d", 5)]);
    assert_eq!(queue.iter_by_sequence(), vec![(&"b", 5), (&"c", 5), (&"d", 5)]);
}

#[test]
fn sequence_order_ignores_counts() {
    let mut queue = TopKQueue::with_capacity(3);
    queue.upsert("a", 1);
    queue.upsert("b", 9);
    queue.upsert("c", 4);
    assert_eq!(queue.iter_by_sequence(), vec![(&"a", 1), (&"b", 9), (&"c", 4)]);
    assert_eq!(queue.iter(), vec![(&"b", 9), (&"c", 4), (&"a", 1)]);
}

#[test]
fn restored_queue_lists_the_same() {
    let mut queue = TopKQueue::with_capacity(6);
    for i in 0..40u64 {
        queue.upsert(i, (i * 7) % 5 + 1);
        if i % 3 == 0 {
            queue.upsert(i, (i * 11) % 7 + 1);
        }
    }
    let mut restored = TopKQueue::with_capacity(6);
    for (item, count) in queue.iter_by_sequence() {
        assert_eq!(restored.upsert(*item, count), None);
    }
    assert_eq!(restored.iter(), queue.iter());
    assert_eq!(restored.iter_by_sequence(), queue.iter_by_sequence());
    assert_eq!(restored.min_count(), queue.min_count());

    // Any capacity that holds the items will do.
    let mut larger = TopKQueue::with_capacity(100);
    for (item, count) in queue.iter_by_sequence() {
        assert_eq!(larger.upsert(*item, count), None);
    }
    assert_eq!(larger.iter(), queue.iter());
    assert_eq!(larger.iter_by_sequence(), queue.iter_by_sequence());
    assert_eq!(larger.min_count(), queue.min_count());
}

#[test]
fn tracks_as_many_as_were_offered() {
    let offers = ["a", "b", "a", "c", "b", "a"];
    for (capacity, expected) in [(0, 0), (1, 1), (2, 2), (3, 3), (4, 3), (10, 3)] {
        let mut queue = TopKQueue::with_capacity(capacity);
        for (i, item) in offers.iter().enumerate() {
            queue.upsert(*item, i as u64 + 1);
        }
        assert_eq!(queue.len(), expected);
    }
}

#[test]
fn keeps_the_top_of_rising_offers() {
    let mut queue = TopKQueue::with_capacity(4);
    let mut best = vec![0u64; 30];
    let mut state: u64 = 12345;
    for _ in 0..2000 {
        state = state.wrapping_mul(6364136223846793005).wrapping_add(1442695040888963407);
        let item = (state >> 33) % 30;
        best[item as usize] += (state >> 50) % 4 + 1;
        queue.upsert(item, best[item as usize]);
    }
    let least = queue.min_count();
    for item in 0..30u64 {
        match queue.get(&item) {
            Some(count) => assert_eq!(count, best[item as usize]),
            None => assert!(best[item as usize] <= least),
        }
    }
    assert_eq!(queue.len(), 4);
}

#[test]
fn keeps_the_top_of_falling_estimates() {
    // Counts of items that are not tracked may fall from one offer to the next.
    let mut queue = TopKQueue::with_capacity(3);
    let mut best = vec![0u64; 20];
    let mut last = vec![0u64; 20];
    let mut state: u64 = 99;
    for _ in 0..2000 {
        state = state.wrapping_mul(6364136223846793005).wrapping_add(1442695040888963407);
        let item = (state >> 33) % 20;
        let at = item as usize;
        let count = match queue.get(&item) {
            Some(current) => current + (state >> 60) % 2,
            None => (state >> 45) % 50,
        };
        queue.upsert(item, count);
        last[at] = count;
        best[at] = best[at].max(count);
        for probe in 0..20u64 {
            match queue.get(&probe) {
                Some(tracked_count) => {
                    assert_eq!(tracked_count, last[probe as usize]);
                    assert_eq!(tracked_count, best[probe as usize]);
                }
                None => assert!(queue.len() < 3 || best[probe as usize] <= queue.min_count()),
            }
        }
    }
}

#[test]
fn ties_leave_in_heap_order() {
    // Of three equal counts the root leaves first, then the left below it.
    let mut queue = TopKQueue::with_capacity(3);
    for item in ["a", "b", "c"] {
        queue.upsert(item, 5);
    }
    assert_eq!(queue.heap(), &[0, 1, 2]);
    assert_eq!(queue.upsert("d", 6), Some("a"));
    assert_eq!(queue.heap(), &[1, 0, 2]);
    assert_eq!(queue.upsert("e", 7), Some("b"));
    assert_eq!(queue.heap(), &[2, 0, 1]);
    assert_eq!(queue.upsert("f", 8), Some("c"));
}

#[test]
fn agrees_with_a_plain_list() {
    for capacity in 1..20usize {
        let mut queue = TopKQueue::with_capacity(capacity);
        // Item, count and turn of each tracked entry.
        let mut list: Vec<(u64, u64, u64)> = Vec::new();
        let mut turn: u64 = 0;
        let mut state: u64 = capacity as u64;
        for _ in 0..600 {
            state = state.wrapping_mul(6364136223846793005).wrapping_add(1442695040888963407);
            let item = (state >> 33) % 40;
            let count = (state >> 45) % 12;
            let evicted = queue.upsert(item, count);
            if let Some(entry) = list.iter_mut().find(|e| e.0 == item) {
                entry.1 = count;
                assert_eq!(evicted, None);
            } else if list.len() < capacity {
                turn += 1;
                list.push((item, count, turn));
                assert_eq!(evicted, None);
            } else {
                let least = list.iter().map(|e| e.1).min().unwrap();
                if count > least {
                    let gone = evicted.unwrap();
                    let at = list.iter().position(|e| e.0 == gone).unwrap();
                    assert_eq!(list[at].1, least);
                    turn += 1;
                    list[at] = (item, count, turn);
                } else {
                    assert_eq!(evicted, None);
                }
            }
            assert_eq!(queue.len(), list.len());
            assert_eq!(queue.is_full(), list.len() == capacity);
            assert_eq!(queue.min_count(), list.iter().map(|e| e.1).min().unwrap());
            for probe in 0..40u64 {
                let expected = list.iter().find(|e| e.0 == probe).map(|e| e.1);
                assert_eq!(queue.get(&probe), expected);
                assert_eq!(queue.contains(&probe), expected.is_some());
                let slot = queue.find_slot_linear(&probe);
                assert_eq!(slot.map(|i| queue.slot_count(i as u32)), expected);
            }
            let mut ranked = list.clone();
            ranked.sort_by(|a, b| b.1.cmp(&a.1).then(a.2.cmp(&b.2)));
            let ranked: Vec<(u64, u64)> = ranked.iter().map(|e| (e.0, e.1)).collect();
            let items: Vec<(u64, u64)> = queue.iter().into_iter().map(|(k, c)| (*k, c)).collect();
            assert_eq!(items, ranked);
        }
    }
}

#[test]
fn heap_is_ordered_from_the_root() {
    let mut queue = TopKQueue::with_capacity(30);
    for i in 0..30u64 {
        queue.upsert(i, (i * 17) % 23);
    }
    let heap = queue.heap();
    for p in 1..heap.len() {
        assert!(queue.slot_count(heap[(p - 1) / 2]) <= queue.slot_count(heap[p]));
    }
    assert_eq!(queue.min_count(), queue.slot_count(heap[0]));
}

#[test]
fn owned_items_are_found_by_borrowed_forms() {
    let mut texts: TopKQueue<String> = TopKQueue::with_capacity(2);
    texts.upsert(String::from("héllo"), 3);
    assert_eq!(texts.get("héllo"), Some(3));
    assert_eq!(texts.get(&String::from("héllo")), Some(3));
    assert_eq!(texts.get("hello"), None);
    assert!(texts.update_if_present("héllo", 4));
    assert_eq!(texts.get("héllo"), Some(4));

    let mut bytes: TopKQueue<Vec<u8>> = TopKQueue::with_capacity(2);
    bytes.upsert(vec![1, 2, 3], 5);
    bytes.upsert(vec![], 6);
    let key: &[u8] = &[1, 2, 3];
    let none: &[u8] = &[];
    let other: &[u8] = &[1, 2];
    assert_eq!(bytes.get(key), Some(5));
    assert_eq!(bytes.get(none), Some(6));
    assert_eq!(bytes.get(other), None);
    assert_eq!(bytes.get(&vec![1, 2, 3]), Some(5));

    let mut borrowed: TopKQueue<&str> = TopKQueue::with_capacity(2);
    borrowed.upsert("x", 1);
    assert_eq!(borrowed.get("x"), Some(1));
    assert_eq!(borrowed.get(&"x"), Some(1));

    let mut numbers: TopKQueue<u64> = TopKQueue::with_capacity(2);
    numbers.upsert(0x0102030405060708, 1);
    numbers.upsert(u64::MAX, 2);
    assert_eq!(numbers.get(&0x0102030405060708), Some(1));
    assert_eq!(numbers.get(&u64::MAX), Some(2));
    assert_eq!(numbers.get(&0), None);
}

/// A flow between two addresses.
#[derive(Clone, Debug, PartialEq)]
struct Flow {
    from: u32,
    to: u32,
}

impl Flow {
    fn packed(&self) -> u64 {
        ((self.from as u64) << 32) | self.to as u64
    }
}

impl Item for Flow {
    fn key(&self) -> ItemKey {
        unreachable!()
    }

    fn hash_with(&self, state: &RandomState) -> u64 {
        self.packed().hash_with(state)
    }
}

impl Matches<Flow> for Flow {
    fn matches(&self, other: &Flow) -> bool {
        self == other
    }
}

#[test]
fn items_of_other_types_can_be_tracked() {
    let mut queue: TopKQueue<Flow> = TopKQueue::with_capacity(2);
    for to in 0..10 {
        queue.upsert(Flow { from: 1, to }, to as u64);
    }
    assert_eq!(queue.iter(), vec![(&Flow { from: 1, to: 9 }, 9), (&Flow { from: 1, to: 8 }, 8)]);
    assert_eq!(queue.get(&Flow { from: 1, to: 8 }), Some(8));
    assert_eq!(queue.get(&Flow { from: 8, to: 1 }), None);
}

#[test]
fn behaviour_does_not_rest_on_the_hasher() {
    let mut listings: Vec<Vec<(String, u64)>> = Vec::new();
    let mut answers: Vec<Vec<Option<String>>> = Vec::new();
    for seed in 0..8u64 {
        let hasher = RandomState::with_seeds(seed, seed, seed, seed);
        let mut queue: TopKQueue<String> = TopKQueue::with_capacity_and_hasher(5, hasher);
        let mut evicted = Vec::new();
        for i in 0..100u64 {
            evicted.push(queue.upsert(format!("item{}", (i * 5) % 17), i % 7));
        }
        answers.push(evicted);
        for i in 0..100u64 {
            queue.upsert(format!("item{}", i % 13), i);
        }
        listings.push(queue.iter().into_iter().map(|(k, c)| (k.clone(), c)).collect());
    }
    for listing in &listings {
        assert_eq!(listing, &listings[0]);
    }
    for answer in &answers {
        assert_eq!(answer, &answers[0]);
    }
    assert_eq!(listings[0][0], (String::from("item8"), 99));
}

#[test]
fn clone_is_independent() {
    let mut queue: TopKQueue<String> = TopKQueue::with_capacity(2);
    queue.upsert(String::from("a"), 1);
    queue.upsert(String::from("b"), 2);
    let mut copy = queue.clone();
    assert_eq!(copy.iter(), queue.iter());
    assert_eq!(copy.heap(), queue.heap());
    assert!(copy.mem_bytes(|_| 0).unwrap() <= queue.mem_bytes(|_| 0).unwrap());
    copy.upsert(String::from("c"), 3);
    assert!(copy.contains("c"));
    assert!(!copy.contains("a"));
    assert!(queue.contains("a"));
    assert!(!queue.contains("c"));
}

#[test]
fn memory_counts_containers_and_items() {
    let mut queue: TopKQueue<String> = TopKQueue::with_capacity(10);
    let table = 32 * 4;
    let empty = queue.mem_bytes(|s| s.capacity()).unwrap();
    assert!(empty >= 10 * std::mem::size_of::<Slot<String>>() + 11 * 4 + table);
    for i in 0..4 {
        queue.upsert(format!("key{}", i), i);
    }
    let bare = queue.mem_bytes(|_| 0).unwrap();
    assert_eq!(bare, empty);
    assert_eq!(queue.mem_bytes(|_| 7), Some(bare + 28));
    assert_eq!(queue.mem_bytes(|s| s.len()), Some(bare + 16));
    assert_eq!(queue.mem_bytes(|_| usize::MAX), None);
}

struct Mover {
    moved: Vec<usize>,
}

impl Reallocator for Mover {
    fn relocated(&self) -> Relocations {
        unreachable!()
    }

    fn relocate<E>(&mut self, object: Box<[E]>) -> Box<[E]> {
        self.moved.push(object.len());
        let mut fresh = Vec::with_capacity(object.len());
        for element in object.into_vec() {
            fresh.push(element);
        }
        fresh.into_boxed_slice()
    }
}

#[test]
fn relocation_keeps_the_queue() {
    let mut queue: TopKQueue<Vec<u8>> = TopKQueue::with_capacity(10);
    for i in 0..5u8 {
        queue.upsert(vec![i; 3], 20 - i as u64);
    }
    let before: Vec<(Vec<u8>, u64)> = queue.iter().into_iter().map(|(k, c)| (k.clone(), c)).collect();
    let heap: Vec<u32> = queue.heap().to_vec();
    let mut twin = queue.clone();
    let roomy = queue.mem_bytes(|_| 3).unwrap();
    let mut mover = Mover { moved: Vec::new() };
    queue.realloc_large_heap_allocated_objects(&mut mover);
    assert_eq!(mover.moved, vec![5, 5, 32]);
    let after: Vec<(Vec<u8>, u64)> = queue.iter().into_iter().map(|(k, c)| (k.clone(), c)).collect();
    assert_eq!(after, before);
    assert_eq!(queue.heap(), &heap[..]);
    // The spare capacity is gone, and comes back with the next insertion.
    let trimmed = queue.mem_bytes(|_| 0).unwrap();
    assert_eq!(trimmed, 5 * std::mem::size_of::<Slot<Vec<u8>>>() + 5 * 4 + 32 * 4);
    queue.upsert(vec![9], 1);
    assert!(queue.mem_bytes(|_| 0).unwrap() >= 10 * std::mem::size_of::<Slot<Vec<u8>>>() + 11 * 4 + 32 * 4);
    assert_eq!(queue.get(&vec![9]), Some(1));
    assert_eq!(queue.min_count(), 1);
    assert!(trimmed + 15 <= roomy);
    // Later calls are answered as without the relocation.
    twin.upsert(vec![9], 1);
    for i in 0..60u8 {
        assert_eq!(queue.upsert(vec![i % 17], i as u64 % 9), twin.upsert(vec![i % 17], i as u64 % 9));
        assert_eq!(queue.iter(), twin.iter());
        assert_eq!(queue.heap(), twin.heap());
    }
}

#[test]
fn relocated_vector_has_no_spare_capacity() {
    let mut vec: Vec<u32> = Vec::with_capacity(100);
    vec.push(4);
    vec.push(5);
    let mut mover = Mover { moved: Vec::new() };
    heavykeeper::memory::realloc_vec(&mut vec, &mut mover);
    assert_eq!(vec, vec![4, 5]);
    assert_eq!(vec.capacity(), 2);
    assert_eq!(mover.moved, vec![2]);
}
