//! Selection of the smallest values of an unordered sequence of `u32`, in
//! ascending order, by several interchangeable strategies that all keep a
//! bounded, sorted buffer while they scan the input once.

pub mod buffer;
pub mod error;
pub mod implementation;
pub mod lanes;
pub mod laws;
pub mod model;
pub mod packed;
pub mod partition;
pub mod select;

use vstd::prelude::*;

verus! {

/// The number of values in the demonstration list.
pub const LIST_SIZE: usize = 65536;

/// `num` with its bits moved up by one place, the top bit brought round to
/// the bottom.
pub open spec fn rotated(num: u32) -> u32 {
    (num << 1) | (num >> 31)
}

/// The value at place `i` of the demonstration list: a prime at place 0, and
/// at each further place the value before it, rotated, plus the place of
/// that value, with wrap-around.
pub open spec fn list_item(i: nat) -> u32
    decreases i,
{
    if i == 0 {
        998_244_353
    } else {
        rotated(list_item((i - 1) as nat)).wrapping_add((i - 1) as u32)
    }
}

/// The demonstration list: `LIST_SIZE` values that look random and are the
/// same on every call.
pub fn make_list() -> (out: Vec<u32>)
    ensures
        out@.len() == LIST_SIZE,
        forall|i: int| 0 <= i < LIST_SIZE ==> out@[i] == list_item(i as nat),
{
    let mut out: Vec<u32> = Vec::with_capacity(LIST_SIZE);
    let mut num: u32 = 998_244_353;
    let mut i: usize = 0;
    while i < LIST_SIZE
        invariant
            i <= LIST_SIZE,
            out@.len() == i,
            num == list_item(i as nat),
            forall|j: int| 0 <= j < i ==> out@[j] == list_item(j as nat),
        decreases LIST_SIZE - i,
    {
        out.push(num);
        num = ((num << 1) | (num >> 31)).wrapping_add(i as u32);
        i = i + 1;
    }
    out
}

} // verus!
