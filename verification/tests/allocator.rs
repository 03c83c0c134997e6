use cakemaster::segment::offset_allocator::ByteAllocator;
use cakemaster::segment::shards::ShardedByteAllocator;

#[test]
fn handles_release_and_coalesce_on_drop() {
    let mut allocator = ByteAllocator::new(4096, 1024);
    let first = allocator.allocate(128).unwrap();
    let second = allocator.allocate(256).unwrap();
    let third = allocator.allocate(64).unwrap();

    assert_eq!(first.offset(), 0);
    assert_eq!(second.offset(), 128);
    assert_eq!(third.offset(), 384);

    allocator.release(second);
    allocator.release(first);
    allocator.release(third);

    let stats = allocator.stats();
    assert_eq!(stats.available_bytes, 4096);
    assert_eq!(stats.live_allocations, 0);
    assert_eq!(allocator.allocate(4096).unwrap().offset(), 0);
}

#[test]
fn scales_large_segments_with_a_power_of_two_quantum() {
    let capacity = 16_u64 << 30;
    let mut allocator = ByteAllocator::new(capacity, 1024);
    assert_eq!(allocator.stats().capacity, capacity);

    let one_byte = allocator.allocate(1).unwrap();
    assert_eq!(one_byte.requested_bytes(), 1);
    assert_eq!(one_byte.reserved_bytes(), 8);
    assert_eq!(one_byte.offset(), 0);

    allocator.release(one_byte);
    assert_eq!(allocator.stats().available_bytes, capacity);
}

#[test]
fn failed_request_hint_is_raised_after_a_free() {
    let mut allocator = ByteAllocator::new(4096, 1024);
    let pressure = allocator.allocate(3072).unwrap();

    assert!(allocator.allocate(2048).is_none());
    assert!(!allocator.may_satisfy(2048));

    allocator.release(pressure);
    assert!(allocator.may_satisfy(4096));
    assert_eq!(allocator.allocate(4096).unwrap().offset(), 0);
}

#[test]
fn nothing_is_handed_out_for_nothing_or_too_much() {
    let mut allocator = ByteAllocator::new_at(1000, 64, 16);
    assert!(allocator.allocate(0).is_none());
    assert!(allocator.allocate(65).is_none());
    let all = allocator.allocate(64).unwrap();
    assert_eq!(all.offset(), 1000);
    assert!(allocator.covers(1000));
    assert!(allocator.covers(1063));
    assert!(!allocator.covers(1064));
    assert!(!allocator.covers(999));
    assert!(allocator.allocate(1).is_none());
    assert_eq!(allocator.stats().used_bytes, 64);
    assert!(allocator.release(all));
}

#[test]
fn ranges_that_are_out_never_overlap() {
    let mut allocator = ByteAllocator::new(1 << 16, 4096);
    let mut out = Vec::new();
    for round in 0..200_u64 {
        if let Some(handle) = allocator.allocate(1 + (round * 37) % 700) {
            out.push(handle);
        }
        if round % 3 == 2 {
            let taken = out.remove((round as usize * 7) % out.len());
            assert!(allocator.release(taken));
        }
        for (i, left) in out.iter().enumerate() {
            for right in &out[i + 1..] {
                assert!(
                    left.offset() + left.reserved_bytes() <= right.offset()
                        || right.offset() + right.reserved_bytes() <= left.offset()
                );
            }
        }
    }
    let used: u64 = out.iter().map(|handle| handle.reserved_bytes()).sum();
    assert_eq!(allocator.stats().used_bytes, used);
    assert_eq!(allocator.stats().live_allocations, out.len() as u64);
}

#[test]
fn complete_layout_keeps_extents_disjoint() {
    let mut allocator = ShardedByteAllocator::new(4096, 2, None, 128);
    assert_eq!(allocator.stats_for_shard(0).capacity_bytes, 2048);
    assert_eq!(allocator.stats_for_shard(1).capacity_bytes, 2048);

    let first = allocator.allocate(0, 2048).unwrap();
    let second = allocator.allocate(1, 1024).unwrap();
    assert_eq!(first.offset(), 0);
    assert_eq!(second.offset(), 2048);

    assert!(allocator.release(second));
    assert!(allocator.release(first));
    assert_eq!(allocator.stats().available_bytes, 4096);
}

#[test]
fn local_layout_materializes_only_its_owned_extent() {
    let mut allocator = ShardedByteAllocator::new(4096, 2, Some(1), 128);
    assert!(allocator.is_shard_local());
    assert_eq!(allocator.stats_for_shard(0).capacity_bytes, 0);
    assert_eq!(allocator.stats_for_shard(1).capacity_bytes, 2048);
    assert!(allocator.allocate(0, 1).is_none());

    let allocation = allocator.allocate(1, 2048).unwrap();
    assert_eq!(allocation.offset(), 2048);
    assert!(allocator.release(allocation));
    assert_eq!(allocator.stats().available_bytes, 2048);
}

#[test]
fn left_over_bytes_go_to_the_first_extents() {
    let allocator = ShardedByteAllocator::new(10, 3, None, 30);
    assert!(!allocator.is_shard_local());
    let sizes: Vec<u64> = (0..3).map(|i| allocator.stats_for_shard(i).capacity_bytes).collect();
    assert_eq!(sizes, vec![4, 3, 3]);
    assert_eq!(allocator.stats().capacity_bytes, 10);
    assert_eq!(ShardedByteAllocator::new(10, 3, Some(3), 30).stats().capacity_bytes, 0);
}

#[test]
fn empty_extents_move_between_shards() {
    let mut allocator = ShardedByteAllocator::new(4096, 2, None, 128);
    let held = allocator.allocate(0, 16).unwrap();
    assert!(allocator.take_empty_extent(0, 1).is_none());
    assert!(allocator.take_empty_extent(1, 4096).is_none());
    let extent = allocator.take_empty_extent(1, 2048).unwrap();
    assert_eq!(allocator.stats_for_shard(1).capacity_bytes, 0);
    allocator.add_extent(0, extent);
    assert_eq!(allocator.stats_for_shard(0).capacity_bytes, 4096);
    let next = allocator.allocate(0, 2048).unwrap();
    assert_eq!(next.offset(), 2048);
    assert!(allocator.may_satisfy(0, 1));
    assert!(!allocator.may_satisfy(1, 1));
    assert!(allocator.release(next));
    assert!(allocator.release(held));
    assert_eq!(allocator.stats().available_bytes, 4096);
}
