# heavykeeper

The core of HeavyKeeper, an algorithm that finds the Top-K elephant flows of a
stream with high precision and a low memory footprint, written in Verus. The
functions of the library carry contracts that Verus proves; what it believes
instead is named at the end.

- `priority_queue`: `TopKQueue`, a min-heap of counts over a dense array of
  slots, with an open-addressing hash table to find an item's slot. It tracks up
  to a fixed number of items and gives up one with a least count for a new item
  with a larger one.
- `model`: the queue as a sequence of entries and the heap of their slots, and
  what each operation makes of them. The contracts of the queue speak of this
  model.
- `laws`: what holds of every queue, such as that it keeps the largest counts,
  that it can be restored from its items in the order of insertion, and that
  neither the hasher nor a relocation ever shows in what it answers.
- `heap`, `probing`, `ranking`: heap order, linear probing with backward-shift
  deletion, and a merge sort.
- `hashing`: the keyed hasher of the `ahash` crate and the items it can hash.
- `memory`: the size of the containers, and moving them to new allocations.
- `serialization`, `text`: the reader for serialized sketches, its header check,
  and its errors with their messages.

`app/` has the error type as a `std::error::Error`.

## What is trusted

`ahash::RandomState` is opaque to Verus. That it hashes the same bytes to the
same value under the same keys, that `with_seeds` is a function of its seeds, and
that a clone has the same keys is believed, not proved (`hashing`). So is what a
few functions of `Vec` do to the elements and to the room for them (`memory`), and that an implementation
of `Reallocator` keeps the elements of what it moves.
