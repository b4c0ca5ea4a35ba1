//! Open addressing with linear probing: the arithmetic of the probe ring, the
//! invariant of a bucket table, and what insertion and deletion do to it.
//!
//! A table maps buckets to slot indices. Only its first `m` buckets are used;
//! they form a ring. Every slot has a home bucket, and a stored slot can be
//! reached from its home by stepping over occupied buckets alone.

use vstd::arithmetic::power2::{
    lemma2_to64, lemma2_to64_rest, lemma_pow2_strictly_increases, lemma_pow2_unfold, pow2,
};
use vstd::prelude::*;
use vstd::set_lib::{lemma_int_range, lemma_len_subset, set_int_range};

verus! {

/// The content of an unoccupied bucket.
pub const EMPTY: u32 = u32::MAX;

/// The number of forward steps that lead from bucket `from` to bucket `to`.
pub open spec fn steps(from: int, to: int, m: int) -> int {
    if from <= to {
        to - from
    } else {
        to - from + m
    }
}

/// The bucket that follows `b` on a ring of `m` buckets.
pub open spec fn ring_next(b: int, m: int) -> int {
    if b + 1 == m {
        0
    } else {
        b + 1
    }
}

/// The home bucket of a key with this hash.
pub open spec fn bucket_of(hash: u64, mask: u32) -> int {
    ((hash as u32) & mask) as int
}

/// `mask` is one less than a power of two.
pub open spec fn is_low_mask(mask: u32) -> bool {
    (mask as u64) & ((mask as u64 + 1) as u64) == 0
}

/// The table stores slot `slot` in one of its buckets.
pub open spec fn holds(table: Seq<u32>, m: int, slot: int) -> bool {
    exists|b: int| 0 <= b < m && #[trigger] table[b] == slot
}

/// Homes lie on the ring, occupied buckets name slots, and no slot is stored twice.
pub open spec fn well_placed(table: Seq<u32>, m: int, homes: Seq<int>) -> bool {
    &&& 0 < m <= table.len()
    &&& homes.len() < m
    &&& homes.len() <= EMPTY
    &&& forall|i: int| 0 <= i < homes.len() ==> 0 <= #[trigger] homes[i] < m
    &&& forall|b: int|
        0 <= b < m && #[trigger] table[b] != EMPTY ==> table[b] < homes.len()
    &&& forall|a: int, b: int|
        0 <= a < m && 0 <= b < m && #[trigger] table[a] != EMPTY && table[a] == #[trigger] table[b]
            ==> a == b
}

/// Between the home of a stored slot and its bucket only `hole` may be unoccupied.
pub open spec fn reachable_around(table: Seq<u32>, m: int, homes: Seq<int>, hole: int) -> bool {
    forall|b: int, p: int|
        0 <= b < m && 0 <= p < m && #[trigger] table[b] != EMPTY && steps(
            homes[table[b] as int],
            p,
            m,
        ) < steps(homes[table[b] as int], b, m) ==> #[trigger] table[p] != EMPTY || p == hole
}

/// The invariant of a bucket table: probing from the home of a stored slot
/// meets the slot before it meets an unoccupied bucket.
pub open spec fn table_ok(table: Seq<u32>, m: int, homes: Seq<int>) -> bool {
    &&& well_placed(table, m, homes)
    &&& reachable_around(table, m, homes, -1)
}

/// A table under repair: `hole` is unoccupied, the buckets after it up to `upto`
/// are occupied, and the homes of what they store lie after `hole` too.
pub open spec fn repair_ok(
    table: Seq<u32>,
    m: int,
    homes: Seq<int>,
    hole: int,
    upto: int,
) -> bool {
    &&& well_placed(table, m, homes)
    &&& 0 <= hole < m
    &&& 0 <= upto < m
    &&& table[hole] == EMPTY
    &&& reachable_around(table, m, homes, hole)
    &&& forall|b: int|
        0 <= b < m && 0 < steps(hole, b, m) <= steps(hole, upto, m) ==> {
            &&& #[trigger] table[b] != EMPTY
            &&& 0 < steps(hole, homes[table[b] as int], m) <= steps(hole, b, m)
        }
}

/// `after` stores what `before` stores, without `slot`.
pub open spec fn holds_all_but(before: Seq<u32>, after: Seq<u32>, m: int, slot: int) -> bool {
    forall|i: int|
        0 <= i < EMPTY ==> (#[trigger] holds(after, m, i) <==> holds(before, m, i) && i != slot)
}

/// `natural` lies on the ring after `vacancy` and no later than `current`.
pub open spec fn in_gap(natural: int, vacancy: int, current: int) -> bool {
    if vacancy <= current {
        vacancy < natural <= current
    } else {
        vacancy < natural || natural <= current
    }
}

/// Fewer slots than buckets leave a bucket unoccupied.
pub proof fn lemma_has_empty(table: Seq<u32>, m: int, homes: Seq<int>)
    requires
        well_placed(table, m, homes),
    ensures
        exists|e: int| 0 <= e < m && #[trigger] table[e] == EMPTY,
{
    if forall|e: int| 0 <= e < m ==> #[trigger] table[e] != EMPTY {
        let stored = Seq::new(m as nat, |b: int| table[b] as int);
        assert(stored.no_duplicates()) by {
            assert forall|a: int, b: int|
                0 <= a < stored.len() && 0 <= b < stored.len() && a != b implies stored[a]
                != stored[b] by {
                assert(table[a] != EMPTY && table[b] != EMPTY);
            }
        }
        stored.unique_seq_to_set();
        lemma_int_range(0, homes.len() as int);
        let slots = set_int_range(0, homes.len() as int);
        assert forall|x: int| stored.to_set().contains(x) implies slots.contains(x) by {
            let b = choose|b: int| 0 <= b < stored.len() && stored[b] == x;
            assert(table[b] != EMPTY);
        }
        lemma_len_subset(stored.to_set(), slots);
        assert(false);
    }
}

/// A slot that the table does not store yet may come to have any home.
pub proof fn lemma_grow(table: Seq<u32>, m: int, homes: Seq<int>, home: int)
    requires
        table_ok(table, m, homes),
        homes.len() + 1 < m,
        homes.len() < EMPTY,
        0 <= home < m,
    ensures
        table_ok(table, m, homes.push(home)),
        !holds(table, m, homes.len() as int),
{
    let grown = homes.push(home);
    assert forall|b: int, p: int|
        0 <= b < m && 0 <= p < m && #[trigger] table[b] != EMPTY && steps(
            grown[table[b] as int],
            p,
            m,
        ) < steps(grown[table[b] as int], b, m) implies #[trigger] table[p] != EMPTY || p == -1 by {
        assert(grown[table[b] as int] == homes[table[b] as int]);
    }
}

/// A slot that the table does not store may change its home.
pub proof fn lemma_rehome(table: Seq<u32>, m: int, homes: Seq<int>, slot: int, home: int)
    requires
        table_ok(table, m, homes),
        0 <= slot < homes.len(),
        !holds(table, m, slot),
        0 <= home < m,
    ensures
        table_ok(table, m, homes.update(slot, home)),
{
    let changed = homes.update(slot, home);
    assert forall|b: int, p: int|
        0 <= b < m && 0 <= p < m && #[trigger] table[b] != EMPTY && steps(
            changed[table[b] as int],
            p,
            m,
        ) < steps(changed[table[b] as int], b, m) implies #[trigger] table[p] != EMPTY || p
        == -1 by {
        assert(changed[table[b] as int] == homes[table[b] as int]);
    }
}

/// Filling the first unoccupied bucket of a slot's probe path keeps the invariant.
pub proof fn lemma_insert(table: Seq<u32>, m: int, homes: Seq<int>, slot: u32, b: int)
    requires
        table_ok(table, m, homes),
        slot < homes.len(),
        !holds(table, m, slot as int),
        0 <= b < m,
        table[b] == EMPTY,
        forall|p: int|
            0 <= p < m && steps(homes[slot as int], p, m) < steps(homes[slot as int], b, m)
                ==> #[trigger] table[p] != EMPTY,
    ensures
        table_ok(table.update(b, slot), m, homes),
        forall|i: int|
            0 <= i < EMPTY ==> (#[trigger] holds(table.update(b, slot), m, i) <==> holds(
                table,
                m,
                i,
            ) || i == slot),
{
    let after = table.update(b, slot);
    assert forall|i: int| 0 <= i < EMPTY implies (#[trigger] holds(after, m, i) <==> holds(
        table,
        m,
        i,
    ) || i == slot) by {
        if holds(table, m, i) {
            let a = choose|a: int| 0 <= a < m && table[a] == i;
            assert(after[a] == i);
        }
        if i == slot {
            assert(after[b] == i);
        }
        if holds(after, m, i) {
            let a = choose|a: int| 0 <= a < m && after[a] == i;
            if a != b {
                assert(table[a] == i);
            }
        }
    }
    assert(well_placed(after, m, homes)) by {
        assert forall|a: int, c: int|
            0 <= a < m && 0 <= c < m && #[trigger] after[a] != EMPTY && after[a]
                == #[trigger] after[c] implies a == c by {
            if a == b && c != b {
                assert(table[c] == slot);
                assert(holds(table, m, slot as int));
            }
            if c == b && a != b {
                assert(table[a] == slot);
                assert(holds(table, m, slot as int));
            }
        }
    }
}

/// Clearing the bucket of a slot opens a hole there.
pub proof fn lemma_clear(table: Seq<u32>, m: int, homes: Seq<int>, b: int)
    requires
        table_ok(table, m, homes),
        0 <= b < m,
        table[b] != EMPTY,
    ensures
        repair_ok(table.update(b, EMPTY), m, homes, b, b),
        holds_all_but(table, table.update(b, EMPTY), m, table[b] as int),
{
    let after = table.update(b, EMPTY);
    assert forall|i: int| 0 <= i < EMPTY implies (#[trigger] holds(after, m, i) <==> holds(
        table,
        m,
        i,
    ) && i != table[b]) by {
        if holds(table, m, i) && i != table[b] {
            let a = choose|a: int| 0 <= a < m && table[a] == i;
            assert(after[a] == i);
        }
        if holds(after, m, i) {
            let a = choose|a: int| 0 <= a < m && after[a] == i;
            assert(table[a] == i);
        }
    }
}

/// Scanning over an entry whose home lies after the hole extends the scanned run.
pub proof fn lemma_repair_skip(table: Seq<u32>, m: int, homes: Seq<int>, hole: int, upto: int)
    requires
        repair_ok(table, m, homes, hole, upto),
        table[ring_next(upto, m)] != EMPTY,
        in_gap(homes[table[ring_next(upto, m)] as int], hole, ring_next(upto, m)),
    ensures
        repair_ok(table, m, homes, hole, ring_next(upto, m)),
{
    let c = ring_next(upto, m);
    assert(steps(hole, c, m) == steps(hole, upto, m) + 1);
}

/// Moving an entry whose home does not lie after the hole into the hole opens
/// a new hole where the entry was.
pub proof fn lemma_repair_shift(table: Seq<u32>, m: int, homes: Seq<int>, hole: int, upto: int)
    requires
        repair_ok(table, m, homes, hole, upto),
        table[ring_next(upto, m)] != EMPTY,
        !in_gap(homes[table[ring_next(upto, m)] as int], hole, ring_next(upto, m)),
    ensures
        ({
            let c = ring_next(upto, m);
            let after = table.update(hole, table[c]).update(c, EMPTY);
            &&& repair_ok(after, m, homes, c, c)
            &&& forall|i: int|
                0 <= i < EMPTY ==> (#[trigger] holds(after, m, i) <==> holds(table, m, i))
        }),
{
    let c = ring_next(upto, m);
    let moved = table[c];
    let h = homes[moved as int];
    let after = table.update(hole, moved).update(c, EMPTY);
    assert(c != hole);
    assert(steps(h, hole, m) < steps(h, c, m));
    assert forall|b: int, p: int|
        0 <= b < m && 0 <= p < m && #[trigger] after[b] != EMPTY && steps(
            homes[after[b] as int],
            p,
            m,
        ) < steps(homes[after[b] as int], b, m) implies #[trigger] after[p] != EMPTY || p == c by {
        if b == hole {
            assert(table[c] != EMPTY);
            if p != c {
                assert(p != hole);
                assert(table[p] != EMPTY || p == hole);
            }
        } else {
            assert(table[b] != EMPTY);
            if p != hole && p != c {
                assert(table[p] != EMPTY || p == hole);
            }
        }
    }
    assert(well_placed(after, m, homes)) by {
        assert forall|a: int, b: int|
            0 <= a < m && 0 <= b < m && #[trigger] after[a] != EMPTY && after[a]
                == #[trigger] after[b] implies a == b by {
            let a0 = if a == hole { c } else { a };
            let b0 = if b == hole { c } else { b };
            assert(table[a0] == table[b0]);
            assert(table[a0] != EMPTY);
        }
    }
    assert forall|i: int| 0 <= i < EMPTY implies (#[trigger] holds(after, m, i) <==> holds(
        table,
        m,
        i,
    )) by {
        if holds(table, m, i) {
            let a = choose|a: int| 0 <= a < m && table[a] == i;
            if a == c {
                assert(after[hole] == i);
            } else {
                assert(after[a] == i);
            }
        }
        if holds(after, m, i) {
            let a = choose|a: int| 0 <= a < m && after[a] == i;
            if a == hole {
                assert(table[c] == i);
            } else {
                assert(table[a] == i);
            }
        }
    }
}

/// Once the run behind the hole ends, the table meets its invariant again.
pub proof fn lemma_repair_done(table: Seq<u32>, m: int, homes: Seq<int>, hole: int, upto: int)
    requires
        repair_ok(table, m, homes, hole, upto),
        table[ring_next(upto, m)] == EMPTY,
    ensures
        table_ok(table, m, homes),
{
    let e = ring_next(upto, m);
    assert forall|b: int, p: int|
        0 <= b < m && 0 <= p < m && #[trigger] table[b] != EMPTY && steps(
            homes[table[b] as int],
            p,
            m,
        ) < steps(homes[table[b] as int], b, m) implies #[trigger] table[p] != EMPTY || p == -1 by {
        if p == hole {
            let h = homes[table[b] as int];
            if steps(hole, b, m) <= steps(hole, upto, m) {
                assert(0 < steps(hole, h, m) <= steps(hole, b, m));
                assert(false);
            } else {
                assert(e != hole);
                assert(e != b);
                assert(steps(hole, e, m) < steps(hole, b, m));
                assert(steps(h, e, m) < steps(h, b, m));
                assert(table[e] != EMPTY || e == hole);
                assert(false);
            }
        }
    }
}

/// Twice `capacity`, rounded up to a power of two, is a number of buckets that
/// one allocation can hold: their bytes, four to a bucket, fit an `isize`.
pub open spec fn fits_table(capacity: int) -> bool {
    2 * capacity <= usize::MAX / 16 + 1
}

/// The least number of buckets that a queue of this capacity asks for.
pub open spec fn min_buckets(capacity: int) -> int {
    if capacity < 4 {
        8
    } else {
        2 * capacity
    }
}

/// `size` is the least power of two that is no smaller than `min_buckets`.
pub open spec fn is_table_size(size: int, capacity: int) -> bool {
    &&& exists|k: nat| size == #[trigger] pow2(k)
    &&& min_buckets(capacity) <= size
    &&& forall|k: nat| min_buckets(capacity) <= #[trigger] pow2(k) ==> size <= pow2(k)
}

/// Compute the hash table size (a power of 2) for a given queue capacity.
/// Uses about 2x overprovisioning for a low load factor.
pub fn table_size_for(capacity: usize) -> (size: usize)
    requires
        2 * capacity <= usize::MAX / 2 + 1,
    ensures
        is_table_size(size as int, capacity as int),
        size > capacity,
        capacity >= 4 ==> size < 4 * capacity,
{
    let min: usize = if capacity < 4 {
        8
    } else {
        capacity * 2
    };
    let mut size: usize = 1;
    let ghost mut exponent: nat = 0;
    proof {
        lemma2_to64();
    }
    while size < min
        invariant
            min <= usize::MAX / 2 + 1,
            size >= 1,
            size == pow2(exponent),
            exponent > 0 ==> pow2((exponent - 1) as nat) < min,
            size < 2 * min,
        decreases 2 * min - size,
    {
        proof {
            lemma_pow2_unfold(exponent + 1);
            exponent = exponent + 1;
        }
        size = size * 2;
    }
    assert forall|k: nat| min <= #[trigger] pow2(k) implies size <= pow2(k) by {
        if exponent > 0 && k < exponent - 1 {
            lemma_pow2_strictly_increases(k, (exponent - 1) as nat);
        }
        if exponent < k {
            lemma_pow2_strictly_increases(exponent, k);
        }
        if k < exponent {
            assert(k == exponent - 1);
        }
    }
    size
}

/// A power of two shares no bit with its predecessor.
proof fn lemma_pow2_low_bits(k: nat)
    requires
        k < 64,
    ensures
        0 < pow2(k) <= u64::MAX,
        (pow2(k) as u64) & ((pow2(k) - 1) as u64) == 0,
    decreases k,
{
    lemma2_to64();
    if k == 0 {
        assert(1u64 & 0u64 == 0) by (bit_vector);
    } else {
        lemma_pow2_low_bits((k - 1) as nat);
        lemma_pow2_unfold(k);
        lemma_pow2_strictly_increases(k, 64);
        let x = pow2((k - 1) as nat) as u64;
        let y = pow2(k) as u64;
        let z = (y - 1) as u64;
        assert(y & z == 0) by (bit_vector)
            requires
                x & ((x - 1) as u64) == 0,
                0 < x,
                x < 0x8000_0000_0000_0000,
                y == 2 * x,
                z == y - 1,
        ;
    }
}

/// The mask that reduces a hash to a bucket of a table with `size` buckets. A
/// table of more than 2^32 buckets uses its first 2^32.
pub(crate) fn mask_for(size: usize) -> (mask: u32)
    requires
        size >= 1,
        exists|k: nat| size == #[trigger] pow2(k),
    ensures
        is_low_mask(mask),
        mask + 1 == if size <= 0x1_0000_0000 {
            size as int
        } else {
            0x1_0000_0000
        },
{
    let low: u32 = #[verifier::truncate]
    (size as u32);
    proof {
        let k = choose|k: nat| size == #[trigger] pow2(k);
        lemma2_to64();
        if k >= 64 {
            if k > 64 {
                lemma_pow2_strictly_increases(64, k);
            }
            assert(false);
        }
        lemma_pow2_low_bits(k);
        let wide = size as u64;
        let prev = (wide - 1) as u64;
        assert(low == (wide as u32));
        assert(wide > 0x1_0000_0000 ==> wide as u32 == 0) by (bit_vector)
            requires
                wide & prev == 0,
                prev == wide - 1,
                wide >= 1,
        ;
        assert(wide == 0x1_0000_0000 ==> wide as u32 == 0) by (bit_vector);
        assert((0xffff_ffffu64) & (0x1_0000_0000u64) == 0) by (bit_vector);
        assert(prev & wide == 0) by (bit_vector)
            requires
                wide & prev == 0,
        ;
    }
    low.wrapping_sub(1)
}

/// The bucket after `bucket` on the ring of `mask + 1` buckets.
pub(crate) fn next_bucket(bucket: usize, mask: u32) -> (next: usize)
    requires
        is_low_mask(mask),
        mask < usize::MAX,
        bucket <= mask,
    ensures
        next == ring_next(bucket as int, mask + 1),
{
    let wide: usize = mask as usize;
    let after: usize = bucket + 1;
    let next: usize = after & wide;
    proof {
        let m64 = mask as u64;
        let m1 = (mask as u64 + 1) as u64;
        let b64 = bucket as u64;
        let a64 = after as u64;
        assert(next as u64 == a64 & m64);
        assert(a64 & m64 == (if b64 == m64 { 0u64 } else { a64 })) by (bit_vector)
            requires
                m64 & m1 == 0,
                m1 == m64 + 1,
                m64 <= 0xffff_ffff,
                b64 <= m64,
                a64 == b64 + 1,
        ;
    }
    next
}

/// Decide whether an entry found at bucket `current` should be shifted back
/// into `vacancy`: it should, unless its natural bucket lies after the vacancy
/// and no later than `current` in the circular probe sequence.
pub fn wraps_around(natural: usize, vacancy: usize, current: usize, _len: usize) -> (shift: bool)
    ensures
        shift == !in_gap(natural as int, vacancy as int, current as int),
{
    if vacancy <= current {
        // No wrap: vacancy ... current (contiguous)
        natural <= vacancy || natural > current
    } else {
        // Wrapped: current ... vacancy (gap in middle)
        natural <= vacancy && natural > current
    }
}

/// On the ring, an entry is shifted back exactly when a probe from its natural
/// bucket meets the vacancy before the entry's present bucket.
pub proof fn law_gap_is_probe_order(natural: int, vacancy: int, current: int, m: int)
    requires
        0 <= natural < m,
        0 <= vacancy < m,
        0 <= current < m,
        vacancy != current,
    ensures
        !in_gap(natural, vacancy, current) <==> steps(natural, vacancy, m) < steps(
            natural,
            current,
            m,
        ),
{
}

/// A table has the least power of two of buckets that is no less than eight and no
/// less than twice the capacity: more than the capacity, and from four on less than
/// four times as many.
pub proof fn law_table_size(size: int, capacity: int)
    requires
        capacity >= 0,
        is_table_size(size, capacity),
    ensures
        exists|k: nat| size == #[trigger] pow2(k),
        size >= 8,
        size >= 2 * capacity,
        size > capacity,
        forall|k: nat| #[trigger] pow2(k) >= 8 && pow2(k) >= 2 * capacity ==> size <= pow2(k),
        capacity >= 4 ==> size < 4 * capacity,
{
    let k = choose|k: nat| size == #[trigger] pow2(k);
    lemma2_to64();
    if capacity < 4 {
        assert(pow2(3) == 8);
    } else {
        if k == 0 {
            assert(false);
        }
        lemma_pow2_unfold(k);
        let half = pow2((k - 1) as nat);
        if half >= 2 * capacity {
            assert(min_buckets(capacity) <= half);
            assert(false);
        }
    }
    assert forall|j: nat| #[trigger] pow2(j) >= 8 && pow2(j) >= 2 * capacity implies size
        <= pow2(j) by {
        assert(min_buckets(capacity) <= pow2(j));
    }
}

/// A capacity is admitted exactly when the bytes of its table, four to a bucket, fit
/// an `isize`.
pub proof fn law_fits_table(size: int, capacity: int)
    requires
        capacity >= 0,
        is_table_size(size, capacity),
    ensures
        fits_table(capacity) <==> 4 * size <= isize::MAX,
{
    law_table_size(size, capacity);
    let k = choose|k: nat| size == #[trigger] pow2(k);
    lemma2_to64();
    lemma2_to64_rest();
    let top: nat = if usize::BITS == 32 {
        28
    } else {
        60
    };
    assert(pow2(top) == usize::MAX / 16 + 1);
    assert(8 * pow2(top) == isize::MAX + 1);
    if fits_table(capacity) {
        assert(pow2(top) >= 8 && pow2(top) >= 2 * capacity);
        assert(size <= pow2(top));
    }
    if 4 * size <= isize::MAX {
        if k > top {
            lemma_pow2_unfold(top + 1);
            if k > top + 1 {
                lemma_pow2_strictly_increases((top + 1) as nat, k);
            }
            assert(false);
        }
        if k < top {
            lemma_pow2_strictly_increases(k, top);
        }
    }
}

/// An entry is shifted back exactly when, counting forward from its natural bucket
/// on a ring of any number of buckets, the vacancy comes before its own bucket.
pub proof fn law_shift_counts_forward(natural: int, vacancy: int, current: int, m: int)
    requires
        0 <= natural < m,
        0 <= vacancy < m,
        0 <= current < m,
    ensures
        vacancy != current ==> (!in_gap(natural, vacancy, current) <==> (vacancy - natural) % m < (
        current - natural) % m),
        vacancy == current ==> !in_gap(natural, vacancy, current),
{
    lemma_forward(natural, vacancy, m);
    lemma_forward(natural, current, m);
}

proof fn lemma_forward(from: int, to: int, m: int)
    requires
        0 <= from < m,
        0 <= to < m,
    ensures
        (to - from) % m == if from <= to {
            to - from
        } else {
            to - from + m
        },
{
    if from <= to {
        vstd::arithmetic::div_mod::lemma_small_mod((to - from) as nat, m as nat);
    } else {
        vstd::arithmetic::div_mod::lemma_small_mod((to - from + m) as nat, m as nat);
        vstd::arithmetic::div_mod::lemma_mod_add_multiples_vanish(to - from, m);
    }
}

}
