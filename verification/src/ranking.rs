//! Sorting by rank: a merge sort that arranges indices by their keys.

use vstd::prelude::*;

verus! {

/// `order` lists every index from `lo` up to `hi` exactly once.
pub open spec fn is_arrangement(order: Seq<int>, lo: int, hi: int) -> bool {
    &&& order.len() == hi - lo
    &&& forall|k: int| 0 <= k < order.len() ==> lo <= #[trigger] order[k] < hi
    &&& forall|j: int, k: int|
        0 <= j < order.len() && 0 <= k < order.len() && #[trigger] order[j] == #[trigger] order[k]
            ==> j == k
    &&& forall|i: int| lo <= i < hi ==> #[trigger] order.contains(i)
}

/// `a` comes no later than `b`: the first numbers decide, then the second.
pub open spec fn no_later(a: (u64, u32), b: (u64, u32)) -> bool {
    a.0 < b.0 || (a.0 == b.0 && a.1 <= b.1)
}

/// Index `i` comes no later than index `j`: the keys decide, then the indices.
pub open spec fn precedes(keys: Seq<(u64, u32)>, i: int, j: int) -> bool {
    no_later(keys[i], keys[j]) && (keys[i] == keys[j] ==> i <= j)
}

/// The keys of the listed indices never step down, and indices with equal keys
/// ascend.
pub open spec fn is_sorted(keys: Seq<(u64, u32)>, order: Seq<int>) -> bool {
    forall|j: int, k: int|
        0 <= j <= k < order.len() ==> precedes(keys, #[trigger] order[j], #[trigger] order[k])
}

/// The indices in a vector, as integers.
pub open spec fn indices(order: Seq<usize>) -> Seq<int> {
    Seq::new(order.len(), |k: int| order[k] as int)
}

/// The indices from `lo` up to `hi`, sorted by their keys.
pub(crate) fn sort_range(keys: &Vec<(u64, u32)>, lo: usize, hi: usize) -> (order: Vec<usize>)
    requires
        lo <= hi <= keys@.len(),
    ensures
        is_arrangement(indices(order@), lo as int, hi as int),
        is_sorted(keys@, indices(order@)),
    decreases hi - lo,
{
    if hi - lo <= 1 {
        let mut single: Vec<usize> = Vec::new();
        if lo < hi {
            single.push(lo);
            assert(indices(single@)[0] == lo);
        }
        return single;
    }
    let mid: usize = lo + (hi - lo) / 2;
    let first: Vec<usize> = sort_range(keys, lo, mid);
    let second: Vec<usize> = sort_range(keys, mid, hi);
    merge(keys, &first, &second, Ghost(lo as int), Ghost(mid as int), Ghost(hi as int))
}

fn is_no_later(a: (u64, u32), b: (u64, u32)) -> (yes: bool)
    ensures
        yes == no_later(a, b),
{
    a.0 < b.0 || (a.0 == b.0 && a.1 <= b.1)
}

/// Merges two sorted lists of indices.
fn merge(
    keys: &Vec<(u64, u32)>,
    first: &Vec<usize>,
    second: &Vec<usize>,
    Ghost(lo): Ghost<int>,
    Ghost(mid): Ghost<int>,
    Ghost(hi): Ghost<int>,
) -> (merged: Vec<usize>)
    requires
        0 <= lo <= mid <= hi <= keys@.len(),
        is_arrangement(indices(first@), lo, mid),
        is_arrangement(indices(second@), mid, hi),
        is_sorted(keys@, indices(first@)),
        is_sorted(keys@, indices(second@)),
    ensures
        is_arrangement(indices(merged@), lo, hi),
        is_sorted(keys@, indices(merged@)),
{
    let ghost a = indices(first@);
    let ghost b = indices(second@);
    let mut merged: Vec<usize> = Vec::new();
    let mut i: usize = 0;
    let mut j: usize = 0;
    while i < first.len() || j < second.len()
        invariant
            0 <= lo <= mid <= hi <= keys@.len(),
            a == indices(first@),
            b == indices(second@),
            is_arrangement(a, lo, mid),
            is_arrangement(b, mid, hi),
            is_sorted(keys@, a),
            is_sorted(keys@, b),
            i <= first@.len(),
            j <= second@.len(),
            merged@.len() == i + j,
            is_sorted(keys@, indices(merged@)),
            forall|k: int| 0 <= k < merged@.len() ==> lo <= #[trigger] indices(merged@)[k] < hi,
            forall|k: int|
                0 <= k < merged@.len() && #[trigger] indices(merged@)[k] < mid ==> exists|x: int|
                    0 <= x < i && #[trigger] a[x] == indices(merged@)[k],
            forall|k: int|
                0 <= k < merged@.len() && #[trigger] indices(merged@)[k] >= mid ==> exists|x: int|
                    0 <= x < j && #[trigger] b[x] == indices(merged@)[k],
            forall|x: int| 0 <= x < i ==> indices(merged@).contains(#[trigger] a[x]),
            forall|x: int| 0 <= x < j ==> indices(merged@).contains(#[trigger] b[x]),
            forall|k: int, l: int|
                0 <= k < merged@.len() && 0 <= l < merged@.len() && #[trigger] indices(merged@)[k]
                    == #[trigger] indices(merged@)[l] ==> k == l,
            forall|k: int, x: int|
                0 <= k < merged@.len() && i <= x < a.len() ==> precedes(
                    keys@,
                    #[trigger] indices(merged@)[k],
                    #[trigger] a[x],
                ),
            forall|k: int, x: int|
                0 <= k < merged@.len() && j <= x < b.len() ==> precedes(
                    keys@,
                    #[trigger] indices(merged@)[k],
                    #[trigger] b[x],
                ),
        decreases first@.len() + second@.len() - i - j,
    {
        let ghost before = indices(merged@);
        let from_first: bool = if i >= first.len() {
            false
        } else if j >= second.len() {
            true
        } else {
            assert(lo <= a[i as int] < mid);
            assert(mid <= b[j as int] < hi);
            is_no_later(keys[first[i]], keys[second[j]])
        };
        if from_first {
            let next: usize = first[i];
            merged.push(next);
            proof {
                let after = indices(merged@);
                assert(a[i as int] == next);
                assert(after =~= before.push(next as int));
                assert forall|x: int| 0 <= x < i + 1 implies after.contains(#[trigger] a[x]) by {
                    if x < i {
                        assert(before.contains(a[x]));
                        let k = choose|k: int| 0 <= k < before.len() && before[k] == a[x];
                        assert(after[k] == a[x]);
                    } else {
                        assert(after[before.len() as int] == a[x]);
                    }
                }
                assert forall|x: int| 0 <= x < j implies after.contains(#[trigger] b[x]) by {
                    assert(before.contains(b[x]));
                    let k = choose|k: int| 0 <= k < before.len() && before[k] == b[x];
                    assert(after[k] == b[x]);
                }
                assert forall|k: int, x: int|
                    0 <= k < after.len() && j <= x < b.len() implies precedes(
                    keys@,
                    #[trigger] after[k],
                    #[trigger] b[x],
                ) by {
                    if k == before.len() {
                        assert(precedes(keys@, b[j as int], b[x]));
                    } else {
                        assert(precedes(keys@, before[k], b[x]));
                    }
                }
            }
            i += 1;
        } else {
            let next: usize = second[j];
            merged.push(next);
            proof {
                let after = indices(merged@);
                assert(b[j as int] == next);
                assert(after =~= before.push(next as int));
                assert forall|x: int| 0 <= x < j + 1 implies after.contains(#[trigger] b[x]) by {
                    if x < j {
                        assert(before.contains(b[x]));
                        let k = choose|k: int| 0 <= k < before.len() && before[k] == b[x];
                        assert(after[k] == b[x]);
                    } else {
                        assert(after[before.len() as int] == b[x]);
                    }
                }
                assert forall|x: int| 0 <= x < i implies after.contains(#[trigger] a[x]) by {
                    assert(before.contains(a[x]));
                    let k = choose|k: int| 0 <= k < before.len() && before[k] == a[x];
                    assert(after[k] == a[x]);
                }
                assert forall|k: int, x: int|
                    0 <= k < after.len() && i <= x < a.len() implies precedes(
                    keys@,
                    #[trigger] after[k],
                    #[trigger] a[x],
                ) by {
                    if k == before.len() {
                        assert(precedes(keys@, a[i as int], a[x]));
                    } else {
                        assert(precedes(keys@, before[k], a[x]));
                    }
                }
            }
            j += 1;
        }
    }
    proof {
        let order = indices(merged@);
        assert forall|x: int| lo <= x < hi implies #[trigger] order.contains(x) by {
            if x < mid {
                assert(a.contains(x));
                let k = choose|k: int| 0 <= k < a.len() && a[k] == x;
                assert(order.contains(a[k]));
            } else {
                assert(b.contains(x));
                let k = choose|k: int| 0 <= k < b.len() && b[k] == x;
                assert(order.contains(b[k]));
            }
        }
    }
    merged
}

}
