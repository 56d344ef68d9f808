//! The selection of the eight smallest values, by each strategy.

use crate::buffer::BoundedInsertionBuffer;
use crate::model::{fitting, lemma_fitting_all, smallest};
use crate::packed::ItemWidth;
use crate::partition::MAX_WORKERS;
use crate::select::{
    select_by_insertion, select_by_sorting, select_packed, select_partitioned, select_range,
};
use vstd::prelude::*;

verus! {

/// The number of values that every function of this module selects.
pub const CAPACITY: usize = 8;

/// The eight smallest values of `l` in ascending order, all of them where
/// `l` has fewer: the whole input sorted, then cut down.
pub fn naive(l: &[u32]) -> (out: Vec<u32>)
    ensures
        out@ == smallest(l@, CAPACITY as nat),
{
    select_by_sorting(l, CAPACITY)
}

/// The eight smallest values of `l` in ascending order, all of them where
/// `l` has fewer: one pass over the input with a bounded insertion buffer.
pub fn optimized(l: &[u32]) -> (out: Vec<u32>)
    ensures
        out@ == smallest(l@, CAPACITY as nat),
{
    select_by_insertion(l, CAPACITY)
}

/// The eight smallest in ascending order of the values of `l` that fit into
/// 8 bits: one pass with a packed buffer of 8-bit items, all in one lane.
/// Larger values are passed over, so this is the eight smallest of `l` only
/// where those fit into 8 bits.
pub fn cheat_optimized(l: &[u32]) -> (out: Vec<u32>)
    ensures
        out@ == smallest(fitting(l@, 0xFF), CAPACITY as nat),
{
    select_packed(l, CAPACITY, ItemWidth::Narrow)
}

/// The eight smallest in ascending order of the values of `l` that fit into
/// 16 bits: one pass with a packed buffer of 16-bit items in two lanes.
/// Larger values are passed over, so this is the eight smallest of `l` only
/// where those fit into 16 bits.
pub fn less_cheat_optimized(l: &[u32]) -> (out: Vec<u32>)
    ensures
        out@ == smallest(fitting(l@, 0xFFFF), CAPACITY as nat),
{
    select_packed(l, CAPACITY, ItemWidth::Medium)
}

/// The eight smallest values of `l` in ascending order, all of them where
/// `l` has fewer: one pass with a packed buffer of 32-bit items in four
/// lanes, which hold every `u32`.
pub fn non_cheat_optimized(l: &[u32]) -> (out: Vec<u32>)
    ensures
        out@ == smallest(l@, CAPACITY as nat),
{
    proof {
        lemma_fitting_all(l@, 0xFFFF_FFFF);
    }
    select_packed(l, CAPACITY, ItemWidth::Wide)
}

/// The eight smallest values of `l` in ascending order, all of them where
/// `l` has fewer: the input is cut into at most `MAX_WORKERS` partitions,
/// each is selected from on its own, and the results are merged. Here the
/// partitions are worked through one after the other; they share nothing, so
/// a caller with threads can hand each to `thread_optimized_helper` on a
/// thread of its own and merge what comes back.
pub fn thread_optimized(l: &[u32]) -> (out: Vec<u32>)
    ensures
        out@ == smallest(l@, CAPACITY as nat),
{
    select_partitioned(l, CAPACITY, MAX_WORKERS)
}

/// The work of one worker: the eight smallest values of `l[start..end]`, in
/// a buffer of the worker's own.
pub fn thread_optimized_helper(l: &[u32], start: usize, end: usize) -> (part:
    BoundedInsertionBuffer)
    requires
        start <= end <= l.len(),
    ensures
        part.wf(),
        part.spec_capacity() == CAPACITY,
        part@ == smallest(l@.subrange(start as int, end as int), CAPACITY as nat),
{
    select_range(l, start, end, CAPACITY)
}

} // verus!
