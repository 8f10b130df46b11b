//! The fixed-capacity array, queue and stack of `eta_algorithms`, as the
//! library uses them. Each wrapper below states what the crate's source
//! shows of the method it calls; nothing here is proved.
use vstd::prelude::*;

use eta_algorithms::data_structs::array::Array;
use eta_algorithms::data_structs::queue::Queue;
use eta_algorithms::data_structs::stack::Stack;

verus! {

#[verifier::external_type_specification]
#[verifier::external_body]
#[verifier::reject_recursive_types(T)]
pub struct ExArray<T: Copy + Sized>(Array<T>);

#[verifier::external_type_specification]
#[verifier::external_body]
#[verifier::reject_recursive_types(T)]
pub struct ExQueue<T: Copy + Sized>(Queue<T>);

#[verifier::external_type_specification]
#[verifier::external_body]
#[verifier::reject_recursive_types(T)]
pub struct ExStack<T: Copy + Sized>(Stack<T>);

/// Whether `Layout::array` accepts `count` items of `item_size` bytes
/// (its size must not exceed `isize::MAX`).
pub open spec fn layout_fits(count: int, item_size: int) -> bool {
    count * item_size <= isize::MAX
}

// ---------------------------------------------------------------- Array<u64>

/// What an `Array<u64>` holds, slot by slot (its length is the capacity).
pub uninterp spec fn edge_array_items(a: Array<u64>) -> Seq<u64>;

/// `Array::from_slice`: a new array of `s.len()` slots holding a copy of
/// `s`. The crate allocates through `std::alloc::alloc`, which must not be
/// asked for zero bytes, so `s` must not be empty.
#[verifier::external_body]
pub(crate) fn edge_array_from_slice(s: &[u64]) -> (r: Array<u64>)
    requires
        1 <= s@.len(),
        layout_fits(s@.len() as int, 8),
    ensures
        edge_array_items(r) == s@,
{
    Array::from_slice(s)
}

/// `Array::capacity`: the number of slots.
#[verifier::external_body]
pub(crate) fn edge_array_capacity(a: &Array<u64>) -> (r: usize)
    ensures
        r == edge_array_items(*a).len(),
{
    a.capacity()
}

/// `Array::index`: the value of slot `index` (the crate panics past the end).
#[verifier::external_body]
pub(crate) fn edge_array_get(a: &Array<u64>, index: usize) -> (r: u64)
    requires
        index < edge_array_items(*a).len(),
    ensures
        r == edge_array_items(*a)[index as int],
{
    a[index]
}

/// `Array::index_mut`: writes `value` into slot `index`.
#[verifier::external_body]
pub(crate) fn edge_array_set(a: &mut Array<u64>, index: usize, value: u64)
    requires
        index < edge_array_items(*old(a)).len(),
    ensures
        edge_array_items(*final(a)) == edge_array_items(*old(a)).update(index as int, value),
{
    a[index] = value;
}

/// `Array::clone`: a new array with the same slots (allocated through
/// `Array::new`, hence at least one slot).
#[verifier::external_body]
pub(crate) fn edge_array_clone(a: &Array<u64>) -> (r: Array<u64>)
    requires
        1 <= edge_array_items(*a).len(),
        layout_fits(edge_array_items(*a).len() as int, 8),
    ensures
        edge_array_items(r) == edge_array_items(*a),
{
    a.clone()
}

/// `Array::as_slice`: all slots as a slice.
#[verifier::external_body]
pub(crate) fn edge_array_as_slice(a: &Array<u64>) -> (r: &[u64])
    ensures
        r@ == edge_array_items(*a),
{
    a.as_slice()
}

// --------------------------------------------------------------- Array<bool>

/// What an `Array<bool>` holds.
pub uninterp spec fn flag_array_items(a: Array<bool>) -> Seq<bool>;

/// `Array::new_default_bytes(capacity, 0)`: `capacity` slots, all `false`
/// (at least one: the crate's allocation must not be of zero bytes).
#[verifier::external_body]
pub(crate) fn flag_array_new_cleared(capacity: usize) -> (r: Array<bool>)
    requires
        1 <= capacity,
        layout_fits(capacity as int, 1),
    ensures
        flag_array_items(r) == Seq::new(capacity as nat, |i: int| false),
{
    Array::new_default_bytes(capacity, 0)
}

/// `Array::index`: the value of slot `index`.
#[verifier::external_body]
pub(crate) fn flag_array_get(a: &Array<bool>, index: usize) -> (r: bool)
    requires
        index < flag_array_items(*a).len(),
    ensures
        r == flag_array_items(*a)[index as int],
{
    a[index]
}

/// `Array::index_mut`: writes `value` into slot `index`.
#[verifier::external_body]
pub(crate) fn flag_array_set(a: &mut Array<bool>, index: usize, value: bool)
    requires
        index < flag_array_items(*old(a)).len(),
    ensures
        flag_array_items(*final(a)) == flag_array_items(*old(a)).update(index as int, value),
{
    a[index] = value;
}

// ---------------------------------------------------------------- Array<i32>

/// What an `Array<i32>` holds.
pub uninterp spec fn weight_array_items(a: Array<i32>) -> Seq<i32>;

/// `Array::new_with_default`: `capacity` slots, all `value` (at least one:
/// the crate's allocation must not be of zero bytes).
#[verifier::external_body]
pub(crate) fn weight_array_new_with_default(capacity: usize, value: i32) -> (r: Array<i32>)
    requires
        1 <= capacity,
        layout_fits(capacity as int, 4),
    ensures
        weight_array_items(r) == Seq::new(capacity as nat, |i: int| value),
{
    Array::new_with_default(capacity, value)
}

/// `Array::fill`: every slot becomes `value`.
#[verifier::external_body]
pub(crate) fn weight_array_fill(a: &mut Array<i32>, value: i32)
    ensures
        weight_array_items(*final(a)) == Seq::new(weight_array_items(*old(a)).len(), |i: int| value),
{
    a.fill(value)
}

/// `Array::capacity`: the number of slots.
#[verifier::external_body]
pub(crate) fn weight_array_capacity(a: &Array<i32>) -> (r: usize)
    ensures
        r == weight_array_items(*a).len(),
{
    a.capacity()
}

/// `Array::index`: the value of slot `index`.
#[verifier::external_body]
pub(crate) fn weight_array_get(a: &Array<i32>, index: usize) -> (r: i32)
    requires
        index < weight_array_items(*a).len(),
    ensures
        r == weight_array_items(*a)[index as int],
{
    a[index]
}

/// `Array::index_mut`: writes `value` into slot `index`.
#[verifier::external_body]
pub(crate) fn weight_array_set(a: &mut Array<i32>, index: usize, value: i32)
    requires
        index < weight_array_items(*old(a)).len(),
    ensures
        weight_array_items(*final(a)) == weight_array_items(*old(a)).update(index as int, value),
{
    a[index] = value;
}

// ---------------------------------------------------------- Array<(u32, i32)>

/// What an `Array<(u32, i32)>` holds.
pub uninterp spec fn pair_array_items(a: Array<(u32, i32)>) -> Seq<(u32, i32)>;

/// `Array::new_with_default`: `capacity` slots, all `value` (at least one:
/// the crate's allocation must not be of zero bytes).
#[verifier::external_body]
pub(crate) fn pair_array_new_with_default(capacity: usize, value: (u32, i32)) -> (r: Array<(u32, i32)>)
    requires
        1 <= capacity,
        layout_fits(capacity as int, 8),
    ensures
        pair_array_items(r) == Seq::new(capacity as nat, |i: int| value),
{
    Array::new_with_default(capacity, value)
}

/// `Array::capacity`: the number of slots.
#[verifier::external_body]
pub(crate) fn pair_array_capacity(a: &Array<(u32, i32)>) -> (r: usize)
    ensures
        r == pair_array_items(*a).len(),
{
    a.capacity()
}

/// `Array::index`: the value of slot `index`.
#[verifier::external_body]
pub(crate) fn pair_array_get(a: &Array<(u32, i32)>, index: usize) -> (r: (u32, i32))
    requires
        index < pair_array_items(*a).len(),
    ensures
        r == pair_array_items(*a)[index as int],
{
    a[index]
}

/// `Array::index_mut`: writes `value` into slot `index`.
#[verifier::external_body]
pub(crate) fn pair_array_set(a: &mut Array<(u32, i32)>, index: usize, value: (u32, i32))
    requires
        index < pair_array_items(*old(a)).len(),
    ensures
        pair_array_items(*final(a)) == pair_array_items(*old(a)).update(index as int, value),
{
    a[index] = value;
}

// ---------------------------------------------------------------- Queue<u32>

/// What a `Queue<u32>` holds, front first.
pub uninterp spec fn queue_items(q: Queue<u32>) -> Seq<u32>;

/// The number of items a `Queue<u32>` can hold.
pub uninterp spec fn queue_capacity(q: Queue<u32>) -> nat;

/// `Queue::new_pow2_sized`: an empty queue whose capacity is `capacity`
/// rounded up to a power of two (so at least `capacity`, below twice it).
#[verifier::external_body]
pub(crate) fn queue_new_pow2_sized(capacity: usize) -> (r: Queue<u32>)
    requires
        1 <= capacity,
        layout_fits(2 * capacity, 4),
    ensures
        queue_items(r) == Seq::<u32>::empty(),
        capacity <= queue_capacity(r) < 2 * capacity,
{
    Queue::new_pow2_sized(capacity)
}

/// `Queue::push`: appends `value` at the back (the crate panics when full).
#[verifier::external_body]
pub(crate) fn queue_push(q: &mut Queue<u32>, value: u32)
    requires
        queue_items(*old(q)).len() < queue_capacity(*old(q)),
    ensures
        queue_items(*final(q)) == queue_items(*old(q)).push(value),
        queue_capacity(*final(q)) == queue_capacity(*old(q)),
{
    q.push(value)
}

/// `Queue::dequeue`: removes and returns the front item, `None` when empty.
#[verifier::external_body]
pub(crate) fn queue_dequeue(q: &mut Queue<u32>) -> (r: Option<u32>)
    ensures
        queue_capacity(*final(q)) == queue_capacity(*old(q)),
        queue_items(*old(q)).len() == 0 ==> r is None && queue_items(*final(q)) == queue_items(*old(q)),
        queue_items(*old(q)).len() > 0 ==> r == Some(queue_items(*old(q))[0])
            && queue_items(*final(q)) == queue_items(*old(q)).drop_first(),
{
    q.dequeue()
}

/// `Queue::len`: the number of items.
#[verifier::external_body]
pub(crate) fn queue_len(q: &Queue<u32>) -> (r: usize)
    ensures
        r == queue_items(*q).len(),
{
    q.len()
}

// ------------------------------------------------------- Stack<(usize, usize, usize)>

/// What a `Stack<(usize, usize, usize)>` holds, bottom first.
pub uninterp spec fn frame_stack_items(s: Stack<(usize, usize, usize)>) -> Seq<(usize, usize, usize)>;

/// The number of items a `Stack<(usize, usize, usize)>` can hold.
pub uninterp spec fn frame_stack_capacity(s: Stack<(usize, usize, usize)>) -> nat;

/// `Stack::new`: an empty stack of `capacity` items (at least one: the
/// crate allocates them through `std::alloc::alloc`, which must not be asked
/// for zero bytes). The crate also points its top one item before the
/// allocation while the stack is empty; no precondition can rule that out.
#[verifier::external_body]
pub(crate) fn frame_stack_new(capacity: usize) -> (r: Stack<(usize, usize, usize)>)
    requires
        1 <= capacity,
        layout_fits(capacity as int, 24),
    ensures
        frame_stack_items(r) == Seq::<(usize, usize, usize)>::empty(),
        frame_stack_capacity(r) == capacity,
{
    Stack::new(capacity)
}

/// `Stack::push`: puts `value` on top (the crate panics when full).
#[verifier::external_body]
pub(crate) fn frame_stack_push(s: &mut Stack<(usize, usize, usize)>, value: (usize, usize, usize))
    requires
        frame_stack_items(*old(s)).len() < frame_stack_capacity(*old(s)),
    ensures
        frame_stack_items(*final(s)) == frame_stack_items(*old(s)).push(value),
        frame_stack_capacity(*final(s)) == frame_stack_capacity(*old(s)),
{
    s.push(value)
}

/// `Stack::pop`: removes and returns the top item, `None` when empty.
#[verifier::external_body]
pub(crate) fn frame_stack_pop(s: &mut Stack<(usize, usize, usize)>) -> (r: Option<(usize, usize, usize)>)
    ensures
        frame_stack_capacity(*final(s)) == frame_stack_capacity(*old(s)),
        frame_stack_items(*old(s)).len() == 0 ==> r is None
            && frame_stack_items(*final(s)) == frame_stack_items(*old(s)),
        frame_stack_items(*old(s)).len() > 0 ==> r == Some(frame_stack_items(*old(s)).last())
            && frame_stack_items(*final(s)) == frame_stack_items(*old(s)).drop_last(),
{
    s.pop()
}

/// `Stack::top`: a copy of the top item, `None` when empty.
#[verifier::external_body]
pub(crate) fn frame_stack_top(s: &Stack<(usize, usize, usize)>) -> (r: Option<(usize, usize, usize)>)
    ensures
        frame_stack_items(*s).len() == 0 ==> r is None,
        frame_stack_items(*s).len() > 0 ==> r == Some(frame_stack_items(*s).last()),
{
    s.top().copied()
}

/// `Stack::len`: the number of items.
#[verifier::external_body]
pub(crate) fn frame_stack_len(s: &Stack<(usize, usize, usize)>) -> (r: usize)
    ensures
        r == frame_stack_items(*s).len(),
{
    s.len()
}

// ---------------------------------------------------------------- Stack<u32>

/// What a `Stack<u32>` holds, bottom first.
pub uninterp spec fn handle_stack_items(s: Stack<u32>) -> Seq<u32>;

/// The number of items a `Stack<u32>` can hold.
pub uninterp spec fn handle_stack_capacity(s: Stack<u32>) -> nat;

/// `Stack::new`: an empty stack of `capacity` items (at least one: the
/// crate allocates them through `std::alloc::alloc`, which must not be asked
/// for zero bytes). The crate also points its top one item before the
/// allocation while the stack is empty; no precondition can rule that out.
#[verifier::external_body]
pub(crate) fn handle_stack_new(capacity: usize) -> (r: Stack<u32>)
    requires
        1 <= capacity,
        layout_fits(capacity as int, 4),
    ensures
        handle_stack_items(r) == Seq::<u32>::empty(),
        handle_stack_capacity(r) == capacity,
{
    Stack::new(capacity)
}

/// `Stack::push`: puts `value` on top (the crate panics when full).
#[verifier::external_body]
pub(crate) fn handle_stack_push(s: &mut Stack<u32>, value: u32)
    requires
        handle_stack_items(*old(s)).len() < handle_stack_capacity(*old(s)),
    ensures
        handle_stack_items(*final(s)) == handle_stack_items(*old(s)).push(value),
        handle_stack_capacity(*final(s)) == handle_stack_capacity(*old(s)),
{
    s.push(value)
}

/// `Stack::pop`: removes and returns the top item, `None` when empty.
#[verifier::external_body]
pub(crate) fn handle_stack_pop(s: &mut Stack<u32>) -> (r: Option<u32>)
    ensures
        handle_stack_capacity(*final(s)) == handle_stack_capacity(*old(s)),
        handle_stack_items(*old(s)).len() == 0 ==> r is None
            && handle_stack_items(*final(s)) == handle_stack_items(*old(s)),
        handle_stack_items(*old(s)).len() > 0 ==> r == Some(handle_stack_items(*old(s)).last())
            && handle_stack_items(*final(s)) == handle_stack_items(*old(s)).drop_last(),
{
    s.pop()
}

} // verus!
