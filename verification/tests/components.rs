use least_8::buffer::BoundedInsertionBuffer;
use least_8::error::SelectError;
use least_8::implementation;
use least_8::make_list;
use least_8::packed::{ItemWidth, PackedBoundedBuffer, PackedStore};
use least_8::partition::{
    join_partitions, merge, partition_bounds, partition_count, smallest_head, MAX_WORKERS,
};
use least_8::select::{
    select_by_insertion, select_by_sorting, select_packed, select_partitioned, select_range,
    select_top_k, Strategy,
};

/// The expected result, by the plainest means there are.
fn reference(input: &[u32], k: usize) -> Vec<u32> {
    let mut all = input.to_vec();
    all.sort();
    all.truncate(k);
    all
}

/// A list with many repeated and many neighbouring values, all below `modulus`.
fn mixed(len: usize, modulus: u32) -> Vec<u32> {
    let mut out = Vec::new();
    let mut x: u32 = 12345;
    for _ in 0..len {
        x = x.wrapping_mul(1_103_515_245).wrapping_add(12_345);
        out.push((x >> 8) % modulus);
    }
    out
}

fn buffer_of(values: &[u32], capacity: usize) -> BoundedInsertionBuffer {
    let mut buffer = BoundedInsertionBuffer::new(capacity);
    for v in values {
        buffer.offer(*v);
    }
    buffer
}

#[test]
fn list_starts_with_the_prime_and_its_rotations() {
    let l = make_list();
    assert_eq!(l.len(), 65536);
    assert_eq!(l[0], 998_244_353);
    assert_eq!(l[1], 1_996_488_706);
    assert_eq!(l[2], 3_992_977_413);
    assert_eq!(l[3], 3_690_987_533);
}

#[test]
fn list_is_the_same_on_every_call() {
    assert_eq!(make_list(), make_list());
}

#[test]
fn sorting_puts_an_unordered_input_in_order() {
    assert_eq!(implementation::naive(&[5, 3, 9, 1]), vec![1, 3, 5, 9]);
    assert_eq!(select_by_sorting(&[5, 3, 9, 1, 7], 2), vec![1, 3]);
    assert_eq!(select_by_sorting(&[5, 3, 9, 1, 7], 0), Vec::<u32>::new());
}

#[test]
fn selection_of_k_from_a_longer_input_has_k_values() {
    let input = mixed(1000, 500);
    for k in 1..=16 {
        let out = select_by_insertion(&input, k);
        assert_eq!(out.len(), k);
        assert!(out.windows(2).all(|w| w[0] <= w[1]));
        assert_eq!(out, reference(&input, k));
    }
}

#[test]
fn selection_keeps_duplicates() {
    let input = [9, 2, 2, 7, 2, 1, 1, 8];
    assert_eq!(select_by_insertion(&input, 4), vec![1, 1, 2, 2]);
    assert_eq!(select_by_sorting(&input, 6), vec![1, 1, 2, 2, 2, 7]);
    assert_eq!(select_packed(&input, 5, ItemWidth::Narrow), vec![1, 1, 2, 2, 2]);
    assert_eq!(select_partitioned(&input, 3, 4), vec![1, 1, 2]);
}

#[test]
fn selection_from_a_short_input_is_the_input_sorted() {
    let input = [30, 10, 20];
    let sorted = vec![10, 20, 30];
    assert_eq!(implementation::naive(&input), sorted);
    assert_eq!(implementation::optimized(&input), sorted);
    assert_eq!(implementation::cheat_optimized(&input), sorted);
    assert_eq!(implementation::less_cheat_optimized(&input), sorted);
    assert_eq!(implementation::non_cheat_optimized(&input), sorted);
    assert_eq!(implementation::thread_optimized(&input), sorted);
}

#[test]
fn selection_from_an_input_of_just_k_values() {
    let input = [8, 7, 6, 5, 4, 3, 2, 1];
    let sorted = vec![1, 2, 3, 4, 5, 6, 7, 8];
    assert_eq!(implementation::naive(&input), sorted);
    assert_eq!(implementation::optimized(&input), sorted);
    assert_eq!(implementation::cheat_optimized(&input), sorted);
    assert_eq!(implementation::less_cheat_optimized(&input), sorted);
    assert_eq!(implementation::non_cheat_optimized(&input), sorted);
    assert_eq!(implementation::thread_optimized(&input), sorted);
}

#[test]
fn selection_from_an_empty_input_is_empty() {
    let input: [u32; 0] = [];
    assert!(implementation::naive(&input).is_empty());
    assert!(implementation::optimized(&input).is_empty());
    assert!(implementation::cheat_optimized(&input).is_empty());
    assert!(implementation::less_cheat_optimized(&input).is_empty());
    assert!(implementation::non_cheat_optimized(&input).is_empty());
    assert!(implementation::thread_optimized(&input).is_empty());
}

#[test]
fn partitioned_agrees_with_single_pass_for_every_worker_count() {
    for len in [0usize, 1, 7, 8, 9, 15, 16, 17, 31, 32, 33, 100, 1000] {
        let input = mixed(len, 300);
        let single = select_by_insertion(&input, 8);
        for workers in 1..=MAX_WORKERS {
            assert_eq!(select_partitioned(&input, 8, workers), single);
        }
    }
}

#[test]
fn partitioned_selection_from_fewer_values_than_k() {
    assert_eq!(select_partitioned(&[3, 1, 2], 8, 4), vec![1, 2, 3]);
    assert_eq!(select_partitioned(&[9, 8, 7, 6, 5, 4, 3, 2, 1], 8, 4), vec![1, 2, 3, 4, 5, 6, 7, 8]);
}

#[test]
fn buffer_stays_ascending_and_bounded_after_every_offer() {
    let input = mixed(500, 64);
    let mut buffer = BoundedInsertionBuffer::new(5);
    let mut packed = PackedBoundedBuffer::new(ItemWidth::Narrow, 5);
    for (i, v) in input.iter().enumerate() {
        buffer.offer(*v);
        packed.offer(*v);
        let held = buffer.to_sequence();
        assert!(held.len() <= 5);
        assert_eq!(held.len(), buffer.len());
        assert!(held.windows(2).all(|w| w[0] <= w[1]));
        assert_eq!(held, reference(&input[..=i], 5));
        assert_eq!(packed.to_sequence(), held);
        assert_eq!(packed.len(), held.len());
    }
}

#[test]
fn buffer_rejects_a_value_equal_to_its_largest_when_full() {
    let mut buffer = buffer_of(&[10, 20, 30], 3);
    buffer.offer(30);
    assert_eq!(buffer.to_sequence(), vec![10, 20, 30]);
    buffer.offer(31);
    assert_eq!(buffer.to_sequence(), vec![10, 20, 30]);
    buffer.offer(20);
    assert_eq!(buffer.to_sequence(), vec![10, 20, 20]);
    assert_eq!(buffer.capacity(), 3);
    assert_eq!(buffer.get(1), 20);
}

#[test]
fn buffer_position_is_the_first_place_not_below_the_value() {
    let buffer = buffer_of(&[10, 20, 20, 30], 8);
    assert_eq!(buffer.position(5), 0);
    assert_eq!(buffer.position(10), 0);
    assert_eq!(buffer.position(20), 1);
    assert_eq!(buffer.position(25), 3);
    assert_eq!(buffer.position(30), 3);
    assert_eq!(buffer.position(31), 4);
}

#[test]
fn to_sequence_leaves_the_buffer_as_it_is() {
    let buffer = buffer_of(&[3, 1, 2], 2);
    assert_eq!(buffer.to_sequence(), vec![1, 2]);
    assert_eq!(buffer.to_sequence(), vec![1, 2]);
}

#[test]
fn packed_buffer_replaces_its_last_item_when_full() {
    for width in [ItemWidth::Narrow, ItemWidth::Medium, ItemWidth::Wide] {
        let mut packed = PackedBoundedBuffer::new(width, 8);
        for v in [4, 5, 15, 22, 28, 31, 37, 40] {
            packed.offer(v);
        }
        packed.offer(38);
        assert_eq!(packed.to_sequence(), vec![4, 5, 15, 22, 28, 31, 37, 38]);
        packed.offer(39);
        assert_eq!(packed.to_sequence(), vec![4, 5, 15, 22, 28, 31, 37, 38]);
        packed.offer(1);
        assert_eq!(packed.to_sequence(), vec![1, 4, 5, 15, 22, 28, 31, 37]);
        assert_eq!(packed.capacity(), 8);
        assert_eq!(packed.width(), width);
    }
}

#[test]
fn packed_buffer_carries_items_across_lanes() {
    let mut packed = PackedBoundedBuffer::new(ItemWidth::Medium, 16);
    for v in (1..=16u32).rev() {
        packed.offer(v * 1000);
    }
    let expected: Vec<u32> = (1..=16u32).map(|v| v * 1000).collect();
    assert_eq!(packed.to_sequence(), expected);
    packed.offer(500);
    let mut shifted = vec![500];
    shifted.extend((1..=15u32).map(|v| v * 1000));
    assert_eq!(packed.to_sequence(), shifted);
    assert_eq!(packed.position(4000), 4);
}

#[test]
fn packed_buffer_passes_over_values_beyond_its_width() {
    let mut narrow = PackedBoundedBuffer::new(ItemWidth::Narrow, 4);
    for v in [300, 255, 256, 7, 70000] {
        narrow.offer(v);
    }
    assert_eq!(narrow.to_sequence(), vec![7, 255]);
    let mut medium = PackedBoundedBuffer::new(ItemWidth::Medium, 4);
    for v in [65536, 65535, 7, 4_000_000_000] {
        medium.offer(v);
    }
    assert_eq!(medium.to_sequence(), vec![7, 65535]);
    let mut wide = PackedBoundedBuffer::new(ItemWidth::Wide, 4);
    for v in [65536, 4_294_967_295, 7] {
        wide.offer(v);
    }
    assert_eq!(wide.to_sequence(), vec![7, 65536, 4_294_967_295]);
}

#[test]
fn packed_and_plain_agree_where_the_values_fit() {
    let small = mixed(2000, 256);
    let mid = mixed(2000, 65536);
    let large = mixed(2000, 4_000_000);
    for k in 1..=8 {
        assert_eq!(select_packed(&small, k, ItemWidth::Narrow), select_by_insertion(&small, k));
        assert_eq!(select_packed(&small, k, ItemWidth::Medium), select_by_insertion(&small, k));
        assert_eq!(select_packed(&small, k, ItemWidth::Wide), select_by_insertion(&small, k));
        assert_eq!(select_packed(&mid, k, ItemWidth::Medium), select_by_insertion(&mid, k));
        assert_eq!(select_packed(&mid, k, ItemWidth::Wide), select_by_insertion(&mid, k));
        assert_eq!(select_packed(&large, k, ItemWidth::Wide), select_by_insertion(&large, k));
    }
    for k in 9..=16 {
        assert_eq!(select_packed(&mid, k, ItemWidth::Medium), select_by_insertion(&mid, k));
    }
    for k in 17..=32 {
        assert_eq!(select_packed(&small, k, ItemWidth::Narrow), select_by_insertion(&small, k));
    }
}

#[test]
fn packed_selection_is_from_the_values_that_fit() {
    let input = [1000, 3, 70000, 2, 256, 1];
    assert_eq!(implementation::cheat_optimized(&input), vec![1, 2, 3]);
    assert_eq!(implementation::less_cheat_optimized(&input), vec![1, 2, 3, 256, 1000]);
    assert_eq!(implementation::non_cheat_optimized(&input), vec![1, 2, 3, 256, 1000, 70000]);
}

#[test]
fn item_width_figures() {
    assert_eq!(ItemWidth::Narrow.bits(), 8);
    assert_eq!(ItemWidth::Medium.bits(), 16);
    assert_eq!(ItemWidth::Wide.bits(), 32);
    assert_eq!(ItemWidth::Narrow.limit(), 255);
    assert_eq!(ItemWidth::Medium.limit(), 65535);
    assert_eq!(ItemWidth::Wide.limit(), 4_294_967_295);
    assert_eq!(ItemWidth::Narrow.per_lane(), 8);
    assert_eq!(ItemWidth::Medium.per_lane(), 4);
    assert_eq!(ItemWidth::Wide.per_lane(), 2);
    assert_eq!(ItemWidth::Narrow.max_slots(), 32);
    assert_eq!(ItemWidth::Medium.max_slots(), 16);
    assert_eq!(ItemWidth::Wide.max_slots(), 8);
}

#[test]
fn store_shift_opens_a_gap_and_drops_the_last_item() {
    for width in [ItemWidth::Narrow, ItemWidth::Medium, ItemWidth::Wide] {
        let slots = width.max_slots();
        for index in 0..slots {
            let mut store = PackedStore::new(width, slots);
            for i in 0..slots {
                assert_eq!(store.get(i), 0);
                store.write(i, i as u32 + 1);
            }
            store.shift_right_from(index);
            for i in 0..slots {
                let expected = if i < index {
                    i as u32 + 1
                } else if i == index {
                    0
                } else {
                    i as u32
                };
                assert_eq!(store.get(i), expected);
            }
            store.write(index, width.limit());
            assert_eq!(store.get(index), width.limit());
            if index > 0 {
                assert_eq!(store.get(index - 1), index as u32);
            }
            if index + 1 < slots {
                assert_eq!(store.get(index + 1), index as u32 + 1);
            }
            assert_eq!(store.slots(), slots);
            assert_eq!(store.width(), width);
        }
    }
}

#[test]
fn store_shift_stays_within_its_slots() {
    let mut store = PackedStore::new(ItemWidth::Medium, 5);
    for i in 0..5 {
        store.write(i, 100 + i as u32);
    }
    store.shift_right_from(2);
    let held: Vec<u32> = (0..5).map(|i| store.get(i)).collect();
    assert_eq!(held, vec![100, 101, 0, 102, 103]);
}

#[test]
fn partition_count_is_the_capped_number_of_full_or_partial_groups() {
    assert_eq!(partition_count(0, 8), 0);
    assert_eq!(partition_count(1, 8), 1);
    assert_eq!(partition_count(8, 8), 1);
    assert_eq!(partition_count(9, 8), 2);
    assert_eq!(partition_count(24, 8), 3);
    assert_eq!(partition_count(25, 8), 4);
    assert_eq!(partition_count(65536, 8), 4);
    assert_eq!(partition_count(usize::MAX, 1), 4);
    assert_eq!(partition_count(5, 2), 3);
}

#[test]
fn partition_bounds_tile_the_input() {
    assert_eq!(partition_bounds(10, 3, 0), (0, 3));
    assert_eq!(partition_bounds(10, 3, 1), (3, 6));
    assert_eq!(partition_bounds(10, 3, 2), (6, 10));
    assert_eq!(partition_bounds(65537, 4, 3), (49152, 65537));
    assert_eq!(partition_bounds(3, 4, 0), (0, 0));
    assert_eq!(partition_bounds(3, 4, 3), (0, 3));
    for n in [0usize, 1, 5, 16, 17, 1000] {
        for count in 1..=MAX_WORKERS {
            let mut at = 0;
            for i in 0..count {
                let (start, end) = partition_bounds(n, count, i);
                assert_eq!(start, at);
                assert!(start <= end);
                at = end;
            }
            assert_eq!(at, n);
        }
    }
}

#[test]
fn worker_selects_from_its_range_only() {
    let input = [9, 1, 8, 2, 7, 3];
    assert_eq!(select_range(&input, 2, 5, 2).to_sequence(), vec![2, 7]);
    assert_eq!(select_range(&input, 3, 3, 2).to_sequence(), Vec::<u32>::new());
    assert_eq!(
        implementation::thread_optimized_helper(&input, 1, 6).to_sequence(),
        vec![1, 2, 3, 7, 8]
    );
}

#[test]
fn merge_takes_the_smallest_heads_until_k() {
    let parts = vec![buffer_of(&[1, 4, 9], 8), buffer_of(&[], 8), buffer_of(&[2, 4, 5], 8)];
    assert_eq!(merge(&parts, 4), vec![1, 2, 4, 4]);
    assert_eq!(merge(&parts, 8), vec![1, 2, 4, 4, 5, 9]);
    assert_eq!(merge(&parts, 0), Vec::<u32>::new());
    assert_eq!(merge(&Vec::new(), 3), Vec::<u32>::new());
}

#[test]
fn smallest_head_prefers_the_earliest_part_among_equals() {
    let parts = vec![buffer_of(&[5, 6], 8), buffer_of(&[3, 7], 8), buffer_of(&[3], 8)];
    assert_eq!(smallest_head(&parts, &vec![0, 0, 0]), Some((1, 3)));
    assert_eq!(smallest_head(&parts, &vec![0, 1, 0]), Some((2, 3)));
    assert_eq!(smallest_head(&parts, &vec![0, 1, 1]), Some((0, 5)));
    assert_eq!(smallest_head(&parts, &vec![2, 2, 1]), None);
}

#[test]
fn join_gives_the_merge_when_every_worker_delivered() {
    let outcomes = vec![Some(buffer_of(&[5, 1], 8)), Some(buffer_of(&[4, 2], 8))];
    assert_eq!(join_partitions(outcomes, 3), Ok(vec![1, 2, 4]));
    assert_eq!(join_partitions(Vec::new(), 3), Ok(Vec::new()));
}

#[test]
fn join_fails_when_a_worker_failed() {
    let outcomes = vec![Some(buffer_of(&[5, 1], 8)), None, Some(buffer_of(&[4, 2], 8))];
    assert_eq!(join_partitions(outcomes, 3), Err(SelectError::WorkerFailure));
}

#[test]
fn select_top_k_agrees_across_strategies() {
    let input = mixed(3000, 200);
    let expected = reference(&input, 8);
    for strategy in [
        Strategy::Sorting,
        Strategy::Insertion,
        Strategy::Packed(ItemWidth::Narrow),
        Strategy::Packed(ItemWidth::Medium),
        Strategy::Packed(ItemWidth::Wide),
        Strategy::Partitioned,
    ] {
        assert_eq!(select_top_k(&input, 8, strategy), Ok(expected.clone()));
    }
}

#[test]
fn select_top_k_on_the_demonstration_list() {
    let l = make_list();
    let expected = vec![4, 5, 15, 22, 28, 31, 37, 38];
    assert_eq!(select_top_k(&l, 8, Strategy::Packed(ItemWidth::Narrow)), Ok(expected.clone()));
    assert_eq!(select_top_k(&l, 8, Strategy::Partitioned), Ok(expected.clone()));
    assert_eq!(select_top_k(&l, 3, Strategy::Insertion), Ok(vec![4, 5, 15]));
}

#[test]
fn select_top_k_refuses_a_capacity_of_zero() {
    for strategy in [
        Strategy::Sorting,
        Strategy::Insertion,
        Strategy::Packed(ItemWidth::Medium),
        Strategy::Partitioned,
    ] {
        assert_eq!(select_top_k(&[1, 2, 3], 0, strategy), Err(SelectError::InvalidCapacity));
    }
}

#[test]
fn select_top_k_refuses_a_capacity_beyond_the_packed_store() {
    let input = [1, 2, 3];
    assert_eq!(
        select_top_k(&input, 33, Strategy::Packed(ItemWidth::Narrow)),
        Err(SelectError::InvalidCapacity)
    );
    assert_eq!(
        select_top_k(&input, 17, Strategy::Packed(ItemWidth::Medium)),
        Err(SelectError::InvalidCapacity)
    );
    assert_eq!(
        select_top_k(&input, 9, Strategy::Packed(ItemWidth::Wide)),
        Err(SelectError::InvalidCapacity)
    );
    assert_eq!(select_top_k(&input, 32, Strategy::Packed(ItemWidth::Narrow)), Ok(vec![1, 2, 3]));
    assert_eq!(select_top_k(&input, 33, Strategy::Insertion), Ok(vec![1, 2, 3]));
}

#[test]
fn select_top_k_reports_a_result_beyond_the_item_width() {
    let input = [1, 300, 2, 70000, 3];
    assert_eq!(
        select_top_k(&input, 4, Strategy::Packed(ItemWidth::Narrow)),
        Err(SelectError::DomainOverflow)
    );
    assert_eq!(select_top_k(&input, 3, Strategy::Packed(ItemWidth::Narrow)), Ok(vec![1, 2, 3]));
    assert_eq!(
        select_top_k(&input, 5, Strategy::Packed(ItemWidth::Medium)),
        Err(SelectError::DomainOverflow)
    );
    assert_eq!(
        select_top_k(&input, 4, Strategy::Packed(ItemWidth::Medium)),
        Ok(vec![1, 2, 3, 300])
    );
    assert_eq!(
        select_top_k(&input, 8, Strategy::Packed(ItemWidth::Wide)),
        Ok(vec![1, 2, 3, 300, 70000])
    );
}

#[test]
fn threshold_is_the_largest_value_once_the_buffer_is_full() {
    let mut buffer = BoundedInsertionBuffer::new(3);
    let mut packed = PackedBoundedBuffer::new(ItemWidth::Medium, 3);
    assert_eq!(buffer.threshold(), None);
    assert_eq!(packed.threshold(), None);
    for v in [50, 40] {
        buffer.offer(v);
        packed.offer(v);
    }
    assert_eq!(buffer.threshold(), None);
    assert_eq!(packed.threshold(), None);
    buffer.offer(60);
    packed.offer(60);
    assert_eq!(buffer.threshold(), Some(60));
    assert_eq!(packed.threshold(), Some(60));
    buffer.offer(10);
    packed.offer(10);
    assert_eq!(buffer.threshold(), Some(50));
    assert_eq!(packed.threshold(), Some(50));
    buffer.offer(45);
    packed.offer(45);
    assert_eq!(buffer.threshold(), Some(45));
    assert_eq!(packed.threshold(), Some(45));
    assert_eq!(buffer.to_sequence(), vec![10, 40, 45]);
    assert_eq!(packed.to_sequence(), vec![10, 40, 45]);
}
