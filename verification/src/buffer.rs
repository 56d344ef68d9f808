//! The bounded insertion buffer: the smallest values seen so far, at most
//! `capacity` of them, kept in ascending order.

use crate::model::{
    ascending, bounded_insert, lemma_bounded_insert, lemma_insert_at,
};
use vstd::prelude::*;
use vstd::slice::slice_to_vec;

verus! {

/// A buffer of at most `capacity` values in ascending order. The view is the
/// sequence of the values held.
pub struct BoundedInsertionBuffer {
    items: Vec<u32>,
    capacity: usize,
    threshold: u32,
}

impl View for BoundedInsertionBuffer {
    type V = Seq<u32>;

    closed spec fn view(&self) -> Seq<u32> {
        self.items@
    }
}

impl BoundedInsertionBuffer {
    /// The buffer is within its capacity and ascending, and when it is full
    /// the threshold is its largest value.
    pub closed spec fn wf(&self) -> bool {
        &&& 1 <= self.capacity
        &&& self.items.len() <= self.capacity
        &&& ascending(self.items@)
        &&& self.items.len() == self.capacity ==> self.threshold == self.items@.last()
    }

    /// The largest number of values that the buffer holds.
    pub closed spec fn spec_capacity(&self) -> usize {
        self.capacity
    }

    /// What a well-formed buffer is, seen from outside: ascending and within
    /// its capacity, which is at least one.
    pub proof fn lemma_wf(&self)
        requires
            self.wf(),
        ensures
            ascending(self@),
            self@.len() <= self.spec_capacity(),
            1 <= self.spec_capacity(),
    {
    }

    /// An empty buffer for at most `capacity` values.
    pub fn new(capacity: usize) -> (buffer: Self)
        requires
            1 <= capacity,
        ensures
            buffer.wf(),
            buffer.spec_capacity() == capacity,
            buffer@ == Seq::<u32>::empty(),
    {
        BoundedInsertionBuffer { items: Vec::new(), capacity, threshold: 0 }
    }

    #[verifier::when_used_as_spec(spec_capacity)]
    pub fn capacity(&self) -> (capacity: usize)
        ensures
            capacity == self.spec_capacity(),
    {
        self.capacity
    }

    /// The number of values held.
    pub fn len(&self) -> (len: usize)
        requires
            self.wf(),
        ensures
            len == self@.len(),
            len <= self.spec_capacity(),
    {
        self.items.len()
    }

    /// The value at place `i`.
    pub fn get(&self, i: usize) -> (value: u32)
        requires
            i < self@.len(),
        ensures
            value == self@[i as int],
    {
        self.items[i]
    }

    /// The largest value held, once the buffer is full: from then on an offer
    /// of a value that is not below it changes nothing.
    pub fn threshold(&self) -> (threshold: Option<u32>)
        requires
            self.wf(),
        ensures
            threshold == (if self@.len() == self.spec_capacity() {
                Some(self@.last())
            } else {
                None
            }),
    {
        if self.items.len() == self.capacity {
            Some(self.threshold)
        } else {
            None
        }
    }

    /// The place of the first value that is not below `value`, found by
    /// halving the range; the number of values held where there is none.
    pub fn position(&self, value: u32) -> (index: usize)
        requires
            self.wf(),
        ensures
            index <= self@.len(),
            forall|j: int| 0 <= j < index ==> self@[j] < value,
            forall|j: int| index <= j < self@.len() ==> value <= self@[j],
    {
        let mut left: usize = 0;
        let mut right: usize = self.items.len();
        while left < right
            invariant
                self.wf(),
                left <= right <= self.items.len(),
                forall|j: int| 0 <= j < left ==> self.items@[j] < value,
                forall|j: int| right <= j < self.items.len() ==> value <= self.items@[j],
            decreases right - left,
        {
            let mid: usize = left + (right - left) / 2;
            if self.items[mid] < value {
                left = mid + 1;
            } else {
                right = mid;
            }
        }
        left
    }

    /// Offers `value` to the buffer: it is kept if the buffer has room, or if
    /// it is below the largest value held, which then leaves.
    pub fn offer(&mut self, value: u32)
        requires
            old(self).wf(),
        ensures
            final(self).wf(),
            final(self).spec_capacity() == old(self).spec_capacity(),
            final(self)@ == bounded_insert(old(self)@, value, old(self).spec_capacity() as nat),
            ascending(final(self)@),
            final(self)@.len() <= final(self).spec_capacity(),
    {
        let full: bool = self.items.len() == self.capacity;
        if full && value >= self.threshold {
            proof {
                let len = self.items.len() as int;
                assert forall|j: int| 0 <= j < len implies self@[j] <= value by {
                    assert(self@[j] <= self@[len - 1]);
                }
                lemma_insert_at(self@, value, len);
                assert(self@.insert(len, value).take(len) =~= self@);
            }
            return ;
        }
        let index: usize = self.position(value);
        proof {
            lemma_insert_at(self@, value, index as int);
            lemma_bounded_insert(self@, value, self.capacity as nat);
        }
        if full {
            self.items.truncate(self.capacity - 1);
        }
        self.items.insert(index, value);
        self.threshold = self.items[self.items.len() - 1];
        proof {
            assert(self@ =~= bounded_insert(old(self)@, value, self.capacity as nat));
        }
    }

    /// The values held, in ascending order. The buffer is left as it is.
    pub fn to_sequence(&self) -> (items: Vec<u32>)
        ensures
            items@ == self@,
    {
        slice_to_vec(self.items.as_slice())
    }
}

} // verus!
