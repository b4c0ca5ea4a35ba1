//! Heap memory: how much the containers of a queue use, and moving it elsewhere.

use vstd::arithmetic::overflow::CheckedUsize;
use vstd::prelude::*;

verus! {

/// Calls `Vec::capacity`. Trusted: the capacity is at least the length. How much
/// larger it is rests on the allocator and on how the vector came about.
#[verifier::external_body]
pub(crate) fn vec_capacity<E>(vec: &Vec<E>) -> (capacity: usize)
    ensures
        capacity >= vec@.len(),
{
    vec.capacity()
}

/// Calls `Vec::into_boxed_slice`, which drops spare capacity. Trusted: the
/// elements stay as they are.
#[verifier::external_body]
fn into_boxed_slice<E>(vec: Vec<E>) -> (boxed: Box<[E]>)
    ensures
        boxed@ == vec@,
{
    vec.into_boxed_slice()
}

/// `room` is what `Vec::capacity` may give on `vec`.
pub closed spec fn may_have_room<E>(vec: Vec<E>, room: usize) -> bool {
    call_ensures(vec_capacity::<E>, (&vec,), room)
}

/// The vector has room for just the elements that it holds. Elements that take no
/// space need no room.
pub open spec fn no_spare_room<E>(vec: Vec<E>) -> bool {
    vstd::layout::size_of::<E>() > 0 ==> forall|room: usize| #[trigger]
        may_have_room(vec, room) ==> room == vec@.len()
}

/// The vector has room for `n` elements at least.
pub open spec fn has_room_for<E>(vec: Vec<E>, n: nat) -> bool {
    forall|room: usize| #[trigger] may_have_room(vec, room) ==> room >= n
}

/// One allocation can hold `n` elements of `size` bytes: their bytes fit an `isize`.
pub open spec fn fits_allocation(n: nat, size: nat) -> bool {
    n * size <= isize::MAX
}

/// A vector has room for the elements that it holds.
pub proof fn lemma_room<E>(vec: Vec<E>, room: usize)
    requires
        may_have_room(vec, room),
    ensures
        room >= vec@.len(),
{
}

fn measured<E, F: Fn(&Vec<E>) -> usize>(measure: F, vec: &Vec<E>) -> (room: usize)
    requires
        call_requires(measure, (vec,)),
    ensures
        call_ensures(measure, (vec,), room),
{
    measure(vec)
}

/// The number of elements that `vec` has room for.
pub(crate) fn room_of<E>(vec: &Vec<E>) -> (room: usize)
    ensures
        may_have_room(*vec, room),
{
    measured(vec_capacity::<E>, vec)
}

/// Calls `Vec::reserve_exact`, which makes room for at least `additional` more
/// elements, and does nothing where there is room already. Trusted: the elements
/// stay as they are, and there is that much room. The call panics where the bytes
/// would not fit an `isize`.
#[verifier::external_body]
fn reserve_exact<E>(vec: &mut Vec<E>, additional: usize)
    requires
        old(vec)@.len() + additional <= usize::MAX,
        fits_allocation(old(vec)@.len() + additional as nat, vstd::layout::size_of::<E>()),
    ensures
        final(vec)@ == old(vec)@,
        has_room_for(*final(vec), old(vec)@.len() + additional as nat),
{
    vec.reserve_exact(additional);
}

/// Makes room for `additional` more elements, where one allocation can hold them.
pub(crate) fn reserve<E>(vec: &mut Vec<E>, additional: usize)
    requires
        old(vec)@.len() + additional <= usize::MAX,
    ensures
        final(vec)@ == old(vec)@,
        fits_allocation(old(vec)@.len() + additional as nat, vstd::layout::size_of::<E>())
            ==> has_room_for(*final(vec), old(vec)@.len() + additional as nat),
{
    let total: usize = vec.len() + additional;
    if let Some(bytes) = total.checked_mul(std::mem::size_of::<E>()) {
        if bytes <= isize::MAX as usize {
            reserve_exact(vec, additional);
        }
    }
}

/// Calls `<[E]>::into_vec`, which takes the allocation over without copying an
/// element. Trusted: the elements stay as they are, and the vector's room is that
/// of the boxed slice, which has room for just its elements.
#[verifier::external_body]
fn into_vec<E>(boxed: Box<[E]>) -> (vec: Vec<E>)
    ensures
        vec@ == boxed@,
        no_spare_room(vec),
{
    boxed.into_vec()
}

/// The relocated objects in the order of their relocation: of each, the number of
/// its elements and the size of one.
pub type Relocations = Seq<(nat, nat)>;

/// Moves heap allocations, for instance to defragment memory.
pub trait Reallocator {
    /// The objects that were relocated so far. Ghost: it is never run, and an
    /// implementation in ordinary Rust may give it any body.
    spec fn relocated(&self) -> Relocations;

    /// Move `object` to a new allocation, with its elements as they are.
    fn relocate<E>(&mut self, object: Box<[E]>) -> (moved: Box<[E]>)
        ensures
            moved@ == object@,
            final(self).relocated() == old(self).relocated().push(
                (object@.len(), vstd::layout::size_of::<E>()),
            ),
    ;
}

/// Relocate `vec`'s backing allocation through `reallocator`, in place. Trimmed
/// to a boxed slice first to drop spare capacity; the rebuilt `Vec` has
/// capacity equal to its length, unless its elements take no space.
pub fn realloc_vec<E, R: Reallocator>(vec: &mut Vec<E>, reallocator: &mut R)
    ensures
        final(vec)@ == old(vec)@,
        no_spare_room(*final(vec)),
        final(reallocator).relocated() == old(reallocator).relocated().push(
            (old(vec)@.len(), vstd::layout::size_of::<E>()),
        ),
{
    let mut taken: Vec<E> = Vec::new();
    std::mem::swap(vec, &mut taken);
    let boxed: Box<[E]> = into_boxed_slice(taken);
    *vec = into_vec(reallocator.relocate(boxed));
}

/// The sum of some sizes.
pub open spec fn sum_of(sizes: Seq<usize>) -> nat
    decreases sizes.len(),
{
    if sizes.len() == 0 {
        0
    } else {
        sum_of(sizes.drop_last()) + sizes.last() as nat
    }
}

/// `n` where a `usize` can hold it.
pub open spec fn fitting(n: nat) -> Option<usize> {
    if n <= usize::MAX {
        Some(n as usize)
    } else {
        None
    }
}

/// The bytes of a queue's containers: room for `slot_room` slots of `slot_size`
/// bytes, for `heap_room` heap positions and for `table_len` buckets of
/// `index_size` bytes each, and what the items own beyond that.
pub open spec fn queue_bytes(
    slot_room: nat,
    slot_size: nat,
    heap_room: nat,
    table_len: nat,
    index_size: nat,
    item_bytes: Seq<usize>,
) -> nat {
    slot_room * slot_size + heap_room * index_size + table_len * index_size + sum_of(item_bytes)
}

/// Adds up the bytes of a queue's containers, as far as a `usize` can hold them.
pub fn total_bytes(
    slot_room: usize,
    slot_size: usize,
    heap_room: usize,
    table_len: usize,
    index_size: usize,
    item_bytes: &Vec<usize>,
) -> (bytes: Option<usize>)
    ensures
        bytes == fitting(
            queue_bytes(
                slot_room as nat,
                slot_size as nat,
                heap_room as nat,
                table_len as nat,
                index_size as nat,
                item_bytes@,
            ),
        ),
{
    let slot_bytes: CheckedUsize = CheckedUsize::new(slot_room).mul_value(slot_size);
    let heap_bytes: CheckedUsize = CheckedUsize::new(heap_room).mul_value(index_size);
    let table_bytes: CheckedUsize = CheckedUsize::new(table_len).mul_value(index_size);
    let mut owned: CheckedUsize = CheckedUsize::new(0);
    let mut i: usize = 0;
    assert(item_bytes@.take(0) =~= Seq::<usize>::empty());
    while i < item_bytes.len()
        invariant
            i <= item_bytes@.len(),
            owned@ == sum_of(item_bytes@.take(i as int)),
        decreases item_bytes@.len() - i,
    {
        proof {
            let more = item_bytes@.take(i + 1);
            assert(more.drop_last() =~= item_bytes@.take(i as int));
            assert(more.last() == item_bytes@[i as int]);
        }
        owned = owned.add_value(item_bytes[i]);
        i += 1;
    }
    assert(item_bytes@.take(item_bytes@.len() as int) =~= item_bytes@);
    slot_bytes.add_checked(&heap_bytes).add_checked(&table_bytes).add_checked(&owned).to_option()
}

/// A sum starts at nothing and grows by each size that joins it.
pub proof fn law_sum(sizes: Seq<usize>, size: usize)
    ensures
        sum_of(Seq::<usize>::empty()) == 0,
        sum_of(sizes.push(size)) == sum_of(sizes) + size,
{
    assert(sizes.push(size).drop_last() =~= sizes);
}

/// What a queue's memory comes to, of which `total_bytes` gives just what a `usize`
/// can hold: each slot with room counts with its size, each heap position with room
/// and each bucket with that of an index, and each item with what it owns.
pub proof fn law_bytes(
    slot_room: nat,
    slot_size: nat,
    heap_room: nat,
    table_len: nat,
    index_size: nat,
    item_bytes: Seq<usize>,
)
    ensures
        ({
            let bytes = queue_bytes(
                slot_room,
                slot_size,
                heap_room,
                table_len,
                index_size,
                item_bytes,
            );
            &&& bytes == slot_size * slot_room + index_size * (heap_room + table_len) + sum_of(
                item_bytes,
            )
            &&& bytes <= usize::MAX ==> fitting(bytes) is Some && fitting(bytes)->0 == bytes
            &&& bytes > usize::MAX ==> fitting(bytes) is None
        }),
{
    assert(slot_room * slot_size == slot_size * slot_room) by (nonlinear_arith);
    assert(index_size * (heap_room + table_len) == heap_room * index_size + table_len * index_size)
        by (nonlinear_arith);
}

/// What the words on room say of what `Vec::capacity` may give.
pub proof fn law_room<E>(vec: Vec<E>, room: usize, n: nat)
    requires
        may_have_room(vec, room),
    ensures
        no_spare_room(vec) && vstd::layout::size_of::<E>() > 0 ==> room == vec@.len(),
        has_room_for(vec, n) ==> room >= n,
        fits_allocation(n, vstd::layout::size_of::<E>()) <==> vstd::layout::size_of::<E>() * n
            <= isize::MAX,
{
    let size = vstd::layout::size_of::<E>();
    assert(n * size == size * n) by (nonlinear_arith);
}

/// The room of a vector is what `Vec::capacity` may give on it.
proof fn law_room_is_capacity<E>(vec: Vec<E>, room: usize)
    ensures
        may_have_room(vec, room) <==> call_ensures(vec_capacity::<E>, (&vec,), room),
{
}

}
