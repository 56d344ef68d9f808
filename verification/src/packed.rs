//! The bounded buffer in packed form: its slots are items of 8, 16 or 32
//! bits, held side by side in a fixed array of 64-bit lanes.

use crate::lanes::{
    carried, item_mask, item_width, items_per_lane, lanes_used, lemma_field_bound,
    lemma_field_of_zero, lemma_gap_opened, lemma_slot_place, lemma_slot_written, opened, slot,
    slots_of, LANES, LANE_BITS,
};
use crate::model::{
    ascending, bounded_insert, insertion_point, lemma_bounded_insert, lemma_insert_at,
};
use vstd::prelude::*;

verus! {

/// The width of the items of a packed store.
#[derive(Clone, Copy, Debug, PartialEq, Eq, Structural)]
pub enum ItemWidth {
    /// Items of 8 bits, eight to a lane.
    Narrow,
    /// Items of 16 bits, four to a lane.
    Medium,
    /// Items of 32 bits, two to a lane.
    Wide,
}

impl ItemWidth {
    /// The number of bits of an item.
    pub open spec fn spec_bits(self) -> u64 {
        match self {
            ItemWidth::Narrow => 8,
            ItemWidth::Medium => 16,
            ItemWidth::Wide => 32,
        }
    }

    /// The largest value that an item can hold.
    pub open spec fn spec_limit(self) -> u32 {
        match self {
            ItemWidth::Narrow => 0xFF,
            ItemWidth::Medium => 0xFFFF,
            ItemWidth::Wide => 0xFFFF_FFFF,
        }
    }

    /// The number of items that share a lane.
    pub open spec fn spec_per_lane(self) -> usize {
        match self {
            ItemWidth::Narrow => 8,
            ItemWidth::Medium => 4,
            ItemWidth::Wide => 2,
        }
    }

    /// The number of slots that a store of this width has room for.
    pub open spec fn spec_max_slots(self) -> usize {
        match self {
            ItemWidth::Narrow => 32,
            ItemWidth::Medium => 16,
            ItemWidth::Wide => 8,
        }
    }

    #[verifier::when_used_as_spec(spec_bits)]
    pub fn bits(self) -> (bits: u64)
        ensures
            bits == self.spec_bits(),
            item_width(bits),
    {
        match self {
            ItemWidth::Narrow => 8,
            ItemWidth::Medium => 16,
            ItemWidth::Wide => 32,
        }
    }

    #[verifier::when_used_as_spec(spec_limit)]
    pub fn limit(self) -> (limit: u32)
        ensures
            limit == self.spec_limit(),
            limit == item_mask(self.spec_bits()),
    {
        match self {
            ItemWidth::Narrow => 0xFF,
            ItemWidth::Medium => 0xFFFF,
            ItemWidth::Wide => 0xFFFF_FFFF,
        }
    }

    #[verifier::when_used_as_spec(spec_per_lane)]
    pub fn per_lane(self) -> (count: usize)
        ensures
            count == self.spec_per_lane(),
            count == items_per_lane(self.spec_bits()),
    {
        match self {
            ItemWidth::Narrow => 8,
            ItemWidth::Medium => 4,
            ItemWidth::Wide => 2,
        }
    }

    #[verifier::when_used_as_spec(spec_max_slots)]
    pub fn max_slots(self) -> (count: usize)
        ensures
            count == self.spec_max_slots(),
            count == LANES * items_per_lane(self.spec_bits()),
    {
        match self {
            ItemWidth::Narrow => 32,
            ItemWidth::Medium => 16,
            ItemWidth::Wide => 8,
        }
    }
}

/// A fixed number of slots of one item width, packed into lanes. The view is
/// the sequence of the items in the slots.
pub struct PackedStore {
    lanes: [u64; 4],
    width: ItemWidth,
    slots: usize,
}

impl View for PackedStore {
    type V = Seq<u32>;

    closed spec fn view(&self) -> Seq<u32> {
        slots_of(self.lanes@, self.width.spec_bits(), self.slots as nat)
    }
}

impl PackedStore {
    /// The store has room for its slots.
    pub closed spec fn wf(&self) -> bool {
        self.slots <= self.width.spec_max_slots()
    }

    /// The width of the store's items.
    pub closed spec fn spec_width(&self) -> ItemWidth {
        self.width
    }

    /// The number of the store's slots.
    pub closed spec fn spec_slots(&self) -> usize {
        self.slots
    }

    /// A store of `slots` empty slots.
    pub fn new(width: ItemWidth, slots: usize) -> (store: Self)
        requires
            slots <= width.spec_max_slots(),
        ensures
            store.wf(),
            store.spec_width() == width,
            store.spec_slots() == slots,
            store@ == Seq::new(slots as nat, |i: int| 0u32),
    {
        let store = PackedStore { lanes: [0u64, 0u64, 0u64, 0u64], width, slots };
        proof {
            let w = width.spec_bits();
            assert forall|i: int| 0 <= i < slots implies slot(store.lanes@, w, i) == 0u32 by {
                lemma_slot_place(w, slots as nat, i);
                lemma_field_of_zero(((i % items_per_lane(w)) * w) as u64, w);
            }
            assert(store@ =~= Seq::new(slots as nat, |i: int| 0u32));
        }
        store
    }

    #[verifier::when_used_as_spec(spec_width)]
    pub fn width(&self) -> (width: ItemWidth)
        ensures
            width == self.spec_width(),
    {
        self.width
    }

    #[verifier::when_used_as_spec(spec_slots)]
    pub fn slots(&self) -> (slots: usize)
        ensures
            slots == self.spec_slots(),
            self.wf() ==> slots == self@.len(),
    {
        self.slots
    }

    /// The item in slot `i`.
    pub fn get(&self, i: usize) -> (item: u32)
        requires
            self.wf(),
            i < self.spec_slots(),
        ensures
            item == self@[i as int],
    {
        let w: u64 = self.width.bits();
        let per: usize = self.width.per_lane();
        proof {
            lemma_slot_place(w, self.slots as nat, i as int);
        }
        let lane: usize = i / per;
        let shift: u64 = ((i % per) as u64) * w;
        let word: u64 = self.lanes[lane];
        proof {
            lemma_field_bound(word, shift, w);
        }
        ((word >> shift) & (self.width.limit() as u64)) as u32
    }

    /// Moves the item of every slot from `index` on up by one slot. The item
    /// of the last slot is lost, and slot `index` is left empty.
    pub fn shift_right_from(&mut self, index: usize)
        requires
            old(self).wf(),
            index < old(self).spec_slots(),
        ensures
            final(self).wf(),
            final(self).spec_width() == old(self).spec_width(),
            final(self).spec_slots() == old(self).spec_slots(),
            final(self)@ == old(self)@.insert(index as int, 0).take(old(self).spec_slots() as int),
    {
        let w: u64 = self.width.bits();
        let per: usize = self.width.per_lane();
        let ghost before = self.lanes@;
        proof {
            lemma_slot_place(w, self.slots as nat, index as int);
        }
        let lane: usize = index / per;
        let mut l: usize = (self.slots + per - 1) / per;
        while l > lane + 1
            invariant
                item_width(w),
                w == self.width.spec_bits(),
                self.width == old(self).width,
                self.slots == old(self).slots,
                before == old(self).lanes@,
                lane < l <= lanes_used(w, self.slots as nat) <= LANES,
                forall|j: int| 0 <= j < l ==> self.lanes@[j] == before[j],
                forall|j: int|
                    l <= j < lanes_used(w, self.slots as nat) ==> self.lanes@[j] == carried(
                        before[j],
                        before[j - 1],
                        w,
                    ),
                forall|j: int| lanes_used(w, self.slots as nat) <= j < LANES ==> self.lanes@[j] == before[j],
            decreases l,
        {
            l = l - 1;
            self.lanes[l] = (self.lanes[l] << w) | (self.lanes[l - 1] >> (LANE_BITS - w));
        }
        let offset: u64 = ((index % per) as u64) * w;
        let tail: u64 = u64::MAX << offset;
        let word: u64 = self.lanes[lane];
        self.lanes[lane] = ((word & tail) << w) | (word & !tail);
        proof {
            assert(self.lanes@[lane as int] == opened(before[lane as int], offset, w));
            lemma_gap_opened(before, self.lanes@, w, self.slots as nat, index as int);
        }
    }

    /// Puts `value` into slot `index`, which is empty, as it is after
    /// `shift_right_from(index)`.
    pub fn write(&mut self, index: usize, value: u32)
        requires
            old(self).wf(),
            index < old(self).spec_slots(),
            value <= old(self).spec_width().spec_limit(),
            old(self)@[index as int] == 0,
        ensures
            final(self).wf(),
            final(self).spec_width() == old(self).spec_width(),
            final(self).spec_slots() == old(self).spec_slots(),
            final(self)@ == old(self)@.update(index as int, value),
    {
        let w: u64 = self.width.bits();
        let per: usize = self.width.per_lane();
        let ghost before = self.lanes@;
        proof {
            lemma_slot_place(w, self.slots as nat, index as int);
        }
        let lane: usize = index / per;
        let offset: u64 = ((index % per) as u64) * w;
        self.lanes[lane] = self.lanes[lane] | ((value as u64) << offset);
        proof {
            assert(self.lanes@ =~= before.update(
                lane as int,
                before[lane as int] | ((value as u64) << offset),
            ));
            lemma_slot_written(before, self.lanes@, w, self.slots as nat, index as int, value);
        }
    }
}

/// What the slots hold after a value was placed at `index`, where `len` of
/// the slots in `before` were in use and the others empty: a gap was opened
/// unless the value came behind the last item and there was room.
proof fn lemma_placed(before: Seq<u32>, after: Seq<u32>, len: int, index: int, value: u32)
    requires
        0 <= index <= len <= before.len(),
        index < before.len(),
        forall|i: int| len <= i < before.len() ==> before[i] == 0,
        after == (if len == before.len() || index < len {
            before.insert(index, 0).take(before.len() as int).update(index, value)
        } else {
            before.update(index, value)
        }),
    ensures
        after.len() == before.len(),
        after[index] == value,
        len < before.len() ==> after.take(len + 1) == before.take(len).insert(index, value),
        len == before.len() ==> after.take(len) == before.take(len).insert(index, value).take(len),
        forall|i: int| len + 1 <= i < before.len() ==> after[i] == 0,
{
    if len < before.len() {
        assert(after.take(len + 1) =~= before.take(len).insert(index, value));
    } else {
        assert(after.take(len) =~= before.take(len).insert(index, value).take(len));
    }
}

/// The bounded buffer over a packed store: at most `capacity` items, always
/// ascending. The view is the sequence of the items held.
pub struct PackedBoundedBuffer {
    store: PackedStore,
    len: usize,
    threshold: u32,
}

impl View for PackedBoundedBuffer {
    type V = Seq<u32>;

    closed spec fn view(&self) -> Seq<u32> {
        self.store@.take(self.len as int)
    }
}

impl PackedBoundedBuffer {
    /// The buffer is within its capacity and ascending, the slots behind its
    /// items are empty, and when it is full the threshold is its largest item.
    pub closed spec fn wf(&self) -> bool {
        &&& self.store.wf()
        &&& 1 <= self.store.slots
        &&& self.len <= self.store.slots
        &&& ascending(self@)
        &&& forall|i: int| self.len <= i < self.store.slots ==> self.store@[i] == 0
        &&& self.len == self.store.slots ==> self.threshold == self.store@[self.len - 1]
    }

    /// The largest number of items that the buffer holds.
    pub closed spec fn spec_capacity(&self) -> usize {
        self.store.slots
    }

    /// The width of the buffer's items.
    pub closed spec fn spec_width(&self) -> ItemWidth {
        self.store.width
    }

    /// An empty buffer for at most `capacity` items of the given width.
    pub fn new(width: ItemWidth, capacity: usize) -> (buffer: Self)
        requires
            1 <= capacity <= width.spec_max_slots(),
        ensures
            buffer.wf(),
            buffer.spec_width() == width,
            buffer.spec_capacity() == capacity,
            buffer@ == Seq::<u32>::empty(),
    {
        let buffer = PackedBoundedBuffer {
            store: PackedStore::new(width, capacity),
            len: 0,
            threshold: 0,
        };
        assert(buffer@ =~= Seq::<u32>::empty());
        buffer
    }

    #[verifier::when_used_as_spec(spec_capacity)]
    pub fn capacity(&self) -> (capacity: usize)
        ensures
            capacity == self.spec_capacity(),
    {
        self.store.slots
    }

    #[verifier::when_used_as_spec(spec_width)]
    pub fn width(&self) -> (width: ItemWidth)
        ensures
            width == self.spec_width(),
    {
        self.store.width
    }

    /// The number of items held.
    pub fn len(&self) -> (len: usize)
        requires
            self.wf(),
        ensures
            len == self@.len(),
            len <= self.spec_capacity(),
    {
        self.len
    }

    /// The largest item held, once the buffer is full: from then on an offer
    /// of a value that is not below it changes nothing.
    pub fn threshold(&self) -> (threshold: Option<u32>)
        requires
            self.wf(),
        ensures
            threshold == (if self@.len() == self.spec_capacity() {
                Some(self@.last())
            } else {
                None
            }),
    {
        if self.len == self.store.slots {
            Some(self.threshold)
        } else {
            None
        }
    }

    /// The place of the first item that is not below `value`, found by
    /// halving the range; the number of items held where there is none.
    pub fn position(&self, value: u32) -> (index: usize)
        requires
            self.wf(),
        ensures
            index <= self@.len(),
            forall|j: int| 0 <= j < index ==> self@[j] < value,
            forall|j: int| index <= j < self@.len() ==> value <= self@[j],
    {
        let mut left: usize = 0;
        let mut right: usize = self.len;
        while left < right
            invariant
                self.wf(),
                left <= right <= self.len,
                forall|j: int| 0 <= j < left ==> self@[j] < value,
                forall|j: int| right <= j < self.len ==> value <= self@[j],
            decreases right - left,
        {
            let mid: usize = left + (right - left) / 2;
            let item: u32 = self.store.get(mid);
            assert(item == self@[mid as int]);
            if item < value {
                left = mid + 1;
            } else {
                right = mid;
            }
        }
        left
    }

    /// Offers `value` to the buffer. A value that the item width cannot hold
    /// is passed over. Any other is kept if the buffer has room, or if it is
    /// below the largest item held, which then leaves.
    pub fn offer(&mut self, value: u32)
        requires
            old(self).wf(),
        ensures
            final(self).wf(),
            final(self).spec_capacity() == old(self).spec_capacity(),
            final(self).spec_width() == old(self).spec_width(),
            final(self)@ == (if value <= old(self).spec_width().spec_limit() {
                bounded_insert(old(self)@, value, old(self).spec_capacity() as nat)
            } else {
                old(self)@
            }),
            ascending(final(self)@),
            final(self)@.len() <= final(self).spec_capacity(),
    {
        if value > self.store.width().limit() {
            return ;
        }
        proof {
            lemma_bounded_insert(self@, value, self.store.slots as nat);
        }
        let capacity: usize = self.store.slots();
        let full: bool = self.len == capacity;
        if full && value >= self.threshold {
            proof {
                assert forall|j: int| 0 <= j < self.len implies self@[j] <= value by {
                    assert(self@[j] <= self@[self.len - 1]);
                }
                lemma_insert_at(self@, value, self.len as int);
                assert(self@.insert(self.len as int, value).take(capacity as int) =~= self@);
            }
            return ;
        }
        let index: usize = self.position(value);
        assert(full ==> index < self.len) by {
            if full && index == self.len {
                assert(self@[self.len - 1] < value);
            }
        }
        self.place(index, value);
    }

    /// Puts `value` at `index`, an insertion point for it: opens a gap there
    /// unless the value comes behind the last item, and writes the value.
    /// When the buffer is full, the last item leaves.
    fn place(&mut self, index: usize, value: u32)
        requires
            old(self).wf(),
            value <= old(self).spec_width().spec_limit(),
            insertion_point(old(self)@, value, index as int),
            old(self)@.len() == old(self).spec_capacity() ==> index < old(self)@.len(),
        ensures
            final(self).wf(),
            final(self).spec_capacity() == old(self).spec_capacity(),
            final(self).spec_width() == old(self).spec_width(),
            final(self)@ == bounded_insert(old(self)@, value, old(self).spec_capacity() as nat),
    {
        let full: bool = self.len == self.store.slots();
        let ghost held = self@;
        let ghost before = self.store@;
        let ghost count = self.len as int;
        if full || index < self.len {
            self.store.shift_right_from(index);
        }
        if !full {
            self.len = self.len + 1;
        }
        self.store.write(index, value);
        self.threshold = if index == self.len - 1 {
            value
        } else {
            self.store.get(self.len - 1)
        };
        proof {
            lemma_placed(before, self.store@, count, index as int, value);
            lemma_insert_at(held, value, index as int);
            lemma_bounded_insert(held, value, self.store.slots as nat);
            assert(self@ == bounded_insert(held, value, self.store.slots as nat));
        }
    }

    /// The items held, in ascending order.
    pub fn to_sequence(&self) -> (items: Vec<u32>)
        requires
            self.wf(),
        ensures
            items@ == self@,
    {
        let mut items: Vec<u32> = Vec::with_capacity(self.len);
        let mut i: usize = 0;
        while i < self.len
            invariant
                self.wf(),
                i <= self.len,
                items@ == self@.take(i as int),
            decreases self.len - i,
        {
            items.push(self.store.get(i));
            assert(items@ =~= self@.take(i + 1));
            i = i + 1;
        }
        assert(self@.take(self.len as int) =~= self@);
        items
    }
}

} // verus!
