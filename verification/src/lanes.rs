//! Items of a fixed bit width packed side by side into 64-bit lanes: where an
//! item sits in a lane, and what shifts and masks do to the items of a lane.

use vstd::prelude::*;

verus! {

/// The number of bits in a lane.
pub const LANE_BITS: u64 = 64;

/// The item widths that the packed store supports.
pub open spec fn item_width(w: u64) -> bool {
    w == 8 || w == 16 || w == 32
}

/// The largest item of width `w`, which is also the mask that cuts a lane
/// down to its lowest item.
pub open spec fn item_mask(w: u64) -> u64 {
    if w == 8 {
        0xFF
    } else if w == 16 {
        0xFFFF
    } else {
        0xFFFF_FFFF
    }
}

/// The item of width `w` that starts at bit `shift` of `word`.
pub open spec fn field(word: u64, shift: u64, w: u64) -> u64 {
    (word >> shift) & item_mask(w)
}

/// A lane whose items from bit `offset` on moved up by one item, the top one
/// lost, the one at `offset` now empty.
pub open spec fn opened(word: u64, offset: u64, w: u64) -> u64 {
    ((word & (u64::MAX << offset)) << w) | (word & !(u64::MAX << offset))
}

/// A lane whose items all moved up by one item, the top one lost, the top
/// item of the lane `below` now its lowest.
pub open spec fn carried(word: u64, below: u64, w: u64) -> u64 {
    (word << w) | (below >> ((LANE_BITS - w) as u64))
}

/// An item is never above the largest item of its width, which is a `u32`.
pub proof fn lemma_field_bound(word: u64, shift: u64, w: u64)
    by (bit_vector)
    requires
        item_width(w),
    ensures
        field(word, shift, w) <= item_mask(w),
        item_mask(w) <= 0xFFFF_FFFF,
{
}

/// Every item of an empty lane is empty.
pub proof fn lemma_field_of_zero(shift: u64, w: u64)
    by (bit_vector)
    requires
        shift < 64,
    ensures
        field(0, shift, w) == 0,
{
}

/// What opening a gap at `offset` does to the item at `shift`: below the gap
/// it stays, at the gap it is empty, above the gap it is the item that was
/// one place further down.
pub proof fn lemma_opened(word: u64, offset: u64, w: u64, shift: u64)
    by (bit_vector)
    requires
        item_width(w),
        offset + w <= 64,
        shift + w <= 64,
    ensures
        shift + w <= offset ==> field(opened(word, offset, w), shift, w) == field(word, shift, w),
        shift == offset ==> field(opened(word, offset, w), shift, w) == 0,
        shift >= offset + w ==> field(opened(word, offset, w), shift, w) == field(
            word,
            (shift - w) as u64,
            w,
        ),
{
}

/// What moving a whole lane up does to the item at `shift`: the lowest is
/// the top item of the lane below, every other is the item that was one
/// place further down.
pub proof fn lemma_carried(word: u64, below: u64, w: u64, shift: u64)
    by (bit_vector)
    requires
        item_width(w),
        shift + w <= 64,
    ensures
        shift == 0 ==> field(carried(word, below, w), shift, w) == field(
            below,
            (64 - w) as u64,
            w,
        ),
        shift >= w ==> field(carried(word, below, w), shift, w) == field(
            word,
            (shift - w) as u64,
            w,
        ),
{
}

/// What writing `value` into the empty item at `offset` does to the item at
/// `shift`: there it is `value`, elsewhere it stays.
pub proof fn lemma_written(word: u64, offset: u64, w: u64, value: u64, shift: u64)
    by (bit_vector)
    requires
        item_width(w),
        offset + w <= 64,
        shift + w <= 64,
        value <= item_mask(w),
        field(word, offset, w) == 0,
    ensures
        shift == offset ==> field(word | (value << offset), shift, w) == value,
        shift + w <= offset || offset + w <= shift ==> field(word | (value << offset), shift, w)
            == field(word, shift, w),
{
}

/// The number of lanes in a packed store.
pub const LANES: usize = 4;

/// How many items of width `w` a lane holds.
pub open spec fn items_per_lane(w: u64) -> int {
    if w == 8 {
        8
    } else if w == 16 {
        4
    } else {
        2
    }
}

/// The item of width `w` in slot `i` of a store made of `lanes`: slots fill
/// lane 0 from its lowest bits up, then lane 1, and so on.
pub open spec fn slot(lanes: Seq<u64>, w: u64, i: int) -> u32 {
    field(lanes[i / items_per_lane(w)], ((i % items_per_lane(w)) * w) as u64, w) as u32
}

/// The first `n` slots of a store made of `lanes`.
pub open spec fn slots_of(lanes: Seq<u64>, w: u64, n: nat) -> Seq<u32> {
    Seq::new(n, |i: int| slot(lanes, w, i))
}

/// The number of lanes that `n` slots of width `w` reach into.
pub open spec fn lanes_used(w: u64, n: nat) -> int {
    (n + items_per_lane(w) - 1) / items_per_lane(w)
}

/// Where slot `i` lies: its lane is one of the store's, and its item ends
/// within the lane.
pub proof fn lemma_slot_place(w: u64, n: nat, i: int)
    requires
        item_width(w),
        n <= LANES * items_per_lane(w),
        0 <= i < n,
    ensures
        0 <= i / items_per_lane(w) < lanes_used(w, n) <= LANES,
        0 <= i % items_per_lane(w) < items_per_lane(w),
        0 <= (i % items_per_lane(w)) * w,
        (i % items_per_lane(w)) * w + w <= 64,
        items_per_lane(w) * w == 64,
{
}

/// Items further up in a lane start at least an item's width further up.
pub proof fn lemma_item_order(w: u64, low: int, high: int)
    requires
        item_width(w),
        low < high,
    ensures
        low * w + w <= high * w,
{
    if w == 8 {
    } else if w == 16 {
    } else {
    }
}

/// Opening a gap at slot `index`, lane by lane, is inserting an empty item
/// there and dropping what no longer fits.
pub proof fn lemma_gap_opened(before: Seq<u64>, after: Seq<u64>, w: u64, n: nat, index: int)
    requires
        item_width(w),
        before.len() == LANES,
        after.len() == LANES,
        n <= LANES * items_per_lane(w),
        0 <= index < n,
        forall|l: int| 0 <= l < index / items_per_lane(w) ==> after[l] == before[l],
        after[index / items_per_lane(w)] == opened(
            before[index / items_per_lane(w)],
            ((index % items_per_lane(w)) * w) as u64,
            w,
        ),
        forall|l: int|
            index / items_per_lane(w) < l < lanes_used(w, n) ==> after[l] == carried(
                before[l],
                before[l - 1],
                w,
            ),
    ensures
        slots_of(after, w, n) == slots_of(before, w, n).insert(index, 0).take(n as int),
{
    let per = items_per_lane(w);
    let lane = index / per;
    let offset = ((index % per) * w) as u64;
    lemma_slot_place(w, n, index);
    let expected = slots_of(before, w, n).insert(index, 0);
    assert forall|i: int| 0 <= i < n implies slot(after, w, i) == expected[i] by {
        lemma_slot_place(w, n, i);
        let shift = ((i % per) * w) as u64;
        if i / per < lane {
            assert(i < index);
            assert(after[i / per] == before[i / per]);
            assert(expected[i] == slot(before, w, i));
        } else if i / per == lane {
            lemma_opened(before[lane], offset, w, shift);
            if i < index {
                lemma_item_order(w, i % per, index % per);
                assert(expected[i] == slot(before, w, i));
            } else if i == index {
                assert(expected[i] == 0);
            } else {
                lemma_item_order(w, index % per, i % per);
                lemma_slot_place(w, n, i - 1);
                assert((i - 1) / per == lane && (i - 1) % per == i % per - 1);
                assert((shift - w) as u64 == ((i - 1) % per) * w);
                assert(expected[i] == slot(before, w, i - 1));
            }
        } else {
            let l = i / per;
            assert(i > index);
            lemma_carried(before[l], before[l - 1], w, shift);
            lemma_slot_place(w, n, i - 1);
            assert(after[l] == carried(before[l], before[l - 1], w));
            assert(expected[i] == slot(before, w, i - 1));
            if i % per == 0 {
                assert((i - 1) / per == l - 1 && (i - 1) % per == per - 1);
                assert((64 - w) as u64 == ((i - 1) % per) * w);
            } else {
                assert((i - 1) / per == l && (i - 1) % per == i % per - 1);
                assert((shift - w) as u64 == ((i - 1) % per) * w);
                assert(shift >= w);
            }
        }
    }
    assert(slots_of(after, w, n) =~= slots_of(before, w, n).insert(index, 0).take(n as int));
}

/// Writing into an empty slot changes that slot and no other.
pub proof fn lemma_slot_written(
    before: Seq<u64>,
    after: Seq<u64>,
    w: u64,
    n: nat,
    index: int,
    value: u32,
)
    requires
        item_width(w),
        before.len() == LANES,
        n <= LANES * items_per_lane(w),
        0 <= index < n,
        value <= item_mask(w),
        slot(before, w, index) == 0,
        after == before.update(
            index / items_per_lane(w),
            before[index / items_per_lane(w)] | ((value as u64) << ((index % items_per_lane(w))
                * w) as u64),
        ),
    ensures
        slots_of(after, w, n) == slots_of(before, w, n).update(index, value),
{
    let per = items_per_lane(w);
    let lane = index / per;
    let offset = ((index % per) * w) as u64;
    lemma_slot_place(w, n, index);
    lemma_field_bound(before[lane], offset, w);
    let expected = slots_of(before, w, n).update(index, value);
    assert forall|i: int| 0 <= i < n implies slot(after, w, i) == expected[i] by {
        lemma_slot_place(w, n, i);
        let shift = ((i % per) * w) as u64;
        if i / per == lane {
            lemma_written(before[lane], offset, w, value as u64, shift);
            assert(field(before[lane], offset, w) == 0);
            if i == index {
                assert(shift == offset);
            } else if i < index {
                lemma_item_order(w, i % per, index % per);
                assert(expected[i] == slot(before, w, i));
            } else {
                lemma_item_order(w, index % per, i % per);
                assert(expected[i] == slot(before, w, i));
            }
        } else {
            assert(after[i / per] == before[i / per]);
            assert(expected[i] == slot(before, w, i));
        }
    }
    assert(slots_of(after, w, n) =~= slots_of(before, w, n).update(index, value));
}

} // verus!
