//! Selection over a whole input: one function for each strategy.

use crate::buffer::BoundedInsertionBuffer;
use crate::error::SelectError;
use crate::model::{
    ascending, fitting, lemma_ascending_unique, lemma_fitting_push, lemma_fitting_selection,
    lemma_smallest_extends, lemma_smallest_push, lemma_smallest_shape, lemma_sorted, prefix,
    smallest, sorted,
};
use crate::packed::{ItemWidth, PackedBoundedBuffer};
use crate::partition::{
    contents, joined, lemma_partitions_tile, merge, partition_bounds, partition_count,
    partition_start, MAX_WORKERS,
};
use vstd::prelude::*;
use vstd::slice::slice_to_vec;

verus! {

/// The sort of the standard library, `<[u32]>::sort`, on the contents of a
/// vector. Believed of it, not proved: afterwards the vector is in ascending
/// order and holds the values it held before, each as often as before.
#[verifier::external_body]
fn sort_ascending(items: &mut Vec<u32>)
    ensures
        ascending(final(items)@),
        final(items)@.to_multiset() == old(items)@.to_multiset(),
{
    items.sort();
}

/// The `k` smallest values of `input` in ascending order, found by sorting a
/// copy of the whole input.
pub fn select_by_sorting(input: &[u32], k: usize) -> (out: Vec<u32>)
    ensures
        out@ == smallest(input@, k as nat),
{
    let mut items: Vec<u32> = slice_to_vec(input);
    sort_ascending(&mut items);
    proof {
        lemma_sorted(input@);
        lemma_ascending_unique(items@, sorted(input@));
    }
    items.truncate(k);
    assert(items@ =~= prefix(sorted(input@), k as nat));
    items
}

/// The `k` smallest values of `input[start..end]`, in the bounded insertion
/// buffer that each of them was offered to in one pass over that range. This
/// is the work of one worker on its partition.
pub fn select_range(input: &[u32], start: usize, end: usize, k: usize) -> (buffer:
    BoundedInsertionBuffer)
    requires
        1 <= k,
        start <= end <= input.len(),
    ensures
        buffer.wf(),
        buffer.spec_capacity() == k,
        buffer@ == smallest(input@.subrange(start as int, end as int), k as nat),
{
    let mut buffer = BoundedInsertionBuffer::new(k);
    let mut i: usize = start;
    assert(input@.subrange(start as int, start as int) =~= Seq::<u32>::empty());
    while i < end
        invariant
            buffer.wf(),
            buffer.spec_capacity() == k,
            start <= i <= end <= input.len(),
            buffer@ == smallest(input@.subrange(start as int, i as int), k as nat),
        decreases end - i,
    {
        buffer.offer(input[i]);
        proof {
            let seen = input@.subrange(start as int, i as int);
            lemma_smallest_push(seen, input@[i as int], k as nat);
            assert(seen.push(input@[i as int]) =~= input@.subrange(start as int, i + 1));
        }
        i = i + 1;
    }
    buffer
}

/// The `k` smallest values of `input` in ascending order, found in one pass
/// that offers each value to a bounded insertion buffer.
pub fn select_by_insertion(input: &[u32], k: usize) -> (out: Vec<u32>)
    requires
        1 <= k,
    ensures
        out@ == smallest(input@, k as nat),
{
    let buffer = select_range(input, 0, input.len(), k);
    assert(input@.subrange(0, input.len() as int) =~= input@);
    buffer.to_sequence()
}

/// The `k` smallest values of `input` in ascending order, found by cutting
/// the input into partitions, selecting from each with a buffer of its own,
/// and merging the buffers. The input is cut into `workers` partitions, or
/// into fewer where it is too short to give each of them `k` values.
pub fn select_partitioned(input: &[u32], k: usize, workers: usize) -> (out: Vec<u32>)
    requires
        1 <= k,
        1 <= workers <= MAX_WORKERS,
    ensures
        out@ == smallest(input@, k as nat),
{
    let n: usize = input.len();
    let wanted: usize = partition_count(n, k);
    let count: usize = if workers < wanted {
        workers
    } else {
        wanted
    };
    let mut parts: Vec<BoundedInsertionBuffer> = Vec::new();
    let mut i: usize = 0;
    let ghost mut covered: int = 0;
    assert(joined(contents(parts@)) =~= input@.take(0));
    while i < count
        invariant
            n == input.len(),
            1 <= k,
            i <= count,
            count == 0 ==> n == 0,
            parts.len() == i,
            forall|j: int| 0 <= j < parts.len() ==> parts[j].wf(),
            0 <= covered <= n,
            covered == (if i < count {
                partition_start(n as int, count as int, i as int)
            } else {
                n as int
            }),
            smallest(joined(contents(parts@)), k as nat) == smallest(
                input@.take(covered),
                k as nat,
            ),
        decreases count - i,
    {
        let bounds = partition_bounds(n, count, i);
        let part = select_range(input, bounds.0, bounds.1, k);
        proof {
            lemma_partitions_tile(n as int, count as int, i as int);
            let piece = input@.subrange(bounds.0 as int, bounds.1 as int);
            lemma_smallest_extends(
                joined(contents(parts@)),
                input@.take(covered),
                piece,
                k as nat,
            );
            assert(input@.take(covered) + piece =~= input@.take(bounds.1 as int));
            assert(contents(parts@.push(part)).drop_last() =~= contents(parts@));
            covered = bounds.1 as int;
        }
        parts.push(part);
        i = i + 1;
    }
    assert(input@.take(n as int) =~= input@);
    merge(&parts, k)
}

/// The `k` smallest in ascending order of those values of `input` that an
/// item of the given width can hold, found in one pass that offers each
/// value to a packed bounded buffer. Values beyond the width are passed over:
/// where one of them belongs to the `k` smallest of `input`, the result is
/// not the `k` smallest of `input`.
pub fn select_packed(input: &[u32], k: usize, width: ItemWidth) -> (out: Vec<u32>)
    requires
        1 <= k <= width.spec_max_slots(),
    ensures
        out@ == smallest(fitting(input@, width.spec_limit()), k as nat),
{
    let mut buffer = PackedBoundedBuffer::new(width, k);
    let mut i: usize = 0;
    proof {
        lemma_fitting_push(Seq::<u32>::empty(), 0, width.spec_limit());
        assert(input@.take(0) =~= Seq::<u32>::empty());
    }
    while i < input.len()
        invariant
            buffer.wf(),
            buffer.spec_capacity() == k,
            buffer.spec_width() == width,
            i <= input.len(),
            buffer@ == smallest(fitting(input@.take(i as int), width.spec_limit()), k as nat),
        decreases input.len() - i,
    {
        buffer.offer(input[i]);
        proof {
            let seen = input@.take(i as int);
            let value = input@[i as int];
            assert(seen.push(value) =~= input@.take(i + 1));
            lemma_fitting_push(seen, value, width.spec_limit());
            if value <= width.spec_limit() {
                lemma_smallest_push(fitting(seen, width.spec_limit()), value, k as nat);
            }
        }
        i = i + 1;
    }
    assert(input@.take(input.len() as int) =~= input@);
    buffer.to_sequence()
}

/// The way in which a selection is made.
#[derive(Clone, Copy, Debug, PartialEq, Eq, Structural)]
pub enum Strategy {
    /// Sort a copy of the input and keep its beginning.
    Sorting,
    /// One pass with a bounded insertion buffer.
    Insertion,
    /// One pass with a packed bounded buffer of the given item width.
    Packed(ItemWidth),
    /// Partitions, each with a buffer of its own, and a merge.
    Partitioned,
}

/// A capacity is valid if it is at least one and, for a packed strategy, no
/// more than the number of slots of a store of that width.
pub open spec fn capacity_valid(k: usize, strategy: Strategy) -> bool {
    &&& 1 <= k
    &&& strategy matches Strategy::Packed(width) ==> k <= width.spec_max_slots()
}

/// A packed strategy can hold a result if each of its values fits into an
/// item; the other strategies can hold any.
pub open spec fn domain_fits(result: Seq<u32>, strategy: Strategy) -> bool {
    strategy matches Strategy::Packed(width) ==> forall|i: int|
        0 <= i < result.len() ==> result[i] <= width.spec_limit()
}

/// The `k` smallest values of `input` in ascending order, all of them where
/// `input` has fewer, found by the given strategy. The selection is refused
/// with `InvalidCapacity` where `k` is not a valid capacity for the
/// strategy, and with `DomainOverflow` where the strategy is a packed one
/// and the result holds a value beyond its item width.
pub fn select_top_k(input: &[u32], k: usize, strategy: Strategy) -> (result: Result<
    Vec<u32>,
    SelectError,
>)
    ensures
        !capacity_valid(k, strategy) ==> result == Err::<Vec<u32>, SelectError>(
            SelectError::InvalidCapacity,
        ),
        capacity_valid(k, strategy) && !domain_fits(smallest(input@, k as nat), strategy)
            ==> result == Err::<Vec<u32>, SelectError>(SelectError::DomainOverflow),
        capacity_valid(k, strategy) && domain_fits(smallest(input@, k as nat), strategy) ==> (
        result matches Ok(out) && out@ == smallest(input@, k as nat)),
{
    if k == 0 {
        return Err(SelectError::InvalidCapacity);
    }
    match strategy {
        Strategy::Sorting => Ok(select_by_sorting(input, k)),
        Strategy::Insertion => Ok(select_by_insertion(input, k)),
        Strategy::Partitioned => Ok(select_partitioned(input, k, MAX_WORKERS)),
        Strategy::Packed(width) => {
            if k > width.max_slots() {
                return Err(SelectError::InvalidCapacity);
            }
            let out = select_packed(input, k, width);
            let expected: usize = if input.len() < k {
                input.len()
            } else {
                k
            };
            proof {
                lemma_smallest_shape(input@, k as nat);
                lemma_fitting_selection(input@, k as nat, width.spec_limit());
            }
            if out.len() == expected {
                Ok(out)
            } else {
                Err(SelectError::DomainOverflow)
            }
        },
    }
}

} // verus!
