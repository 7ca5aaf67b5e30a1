use paged_core::cache::KvCacheModel;
use paged_core::cache::KvEntry;
use paged_core::cache::build_head_mapping;
use paged_core::cache::num_partitions;
use paged_core::cache::use_partitioned_kernel;

fn entry(key: u64, value: u64) -> KvEntry {
    KvEntry { key, value }
}

#[test]
fn cache_round_trip_through_block_table() {
    // A sequence backed by blocks 1 and 0 of a 4-slot-block cache: writing
    // six tokens through the slot mapping and walking the block table back
    // returns the written entries in position order.
    let mut c = KvCacheModel::new(4, 4);
    let entries = vec![
        entry(10, 100),
        entry(11, 101),
        entry(12, 102),
        entry(13, 103),
        entry(14, 104),
        entry(15, 105),
    ];
    let slot_mapping: Vec<i64> = vec![4, 5, 6, 7, 0, 1];
    c.reshape_and_cache(&entries, &slot_mapping);
    let read = c.gather_sequence(&vec![1, 0], 6);
    assert_eq!(read, entries);
}

#[test]
fn negative_slots_are_skipped() {
    let mut c = KvCacheModel::new(2, 2);
    c.reshape_and_cache(&vec![entry(1, 1), entry(2, 2)], &vec![3, -1]);
    let read = c.gather_sequence(&vec![1, 0], 4);
    // Slot 3 (block 1, offset 1) holds the first entry; everything else,
    // including the entry mapped to -1, stays zero.
    assert_eq!(read[1], entry(1, 1));
    assert_eq!(read[0], entry(0, 0));
    assert_eq!(read[2], entry(0, 0));
    assert_eq!(read[3], entry(0, 0));
}

#[test]
fn untouched_slots_keep_their_state() {
    let mut c = KvCacheModel::new(2, 2);
    c.reshape_and_cache(&vec![entry(7, 70)], &vec![2]);
    c.reshape_and_cache(&vec![entry(8, 80)], &vec![1]);
    let read = c.gather_sequence(&vec![0, 1], 4);
    assert_eq!(read[1], entry(8, 80));
    assert_eq!(read[2], entry(7, 70));
}

#[test]
fn grouped_query_head_mapping() {
    // 8 query heads over 2 KV heads: groups of 4.
    assert_eq!(build_head_mapping(8, 2), vec![0, 0, 0, 0, 1, 1, 1, 1]);
    // Plain multi-head attention: the identity mapping.
    assert_eq!(build_head_mapping(4, 4), vec![0, 1, 2, 3]);
}

#[test]
fn kernel_dispatch_threshold() {
    assert!(!use_partitioned_kernel(8192));
    assert!(use_partitioned_kernel(8193));
    assert_eq!(num_partitions(0), 0);
    assert_eq!(num_partitions(1), 1);
    assert_eq!(num_partitions(512), 1);
    assert_eq!(num_partitions(513), 2);
    assert_eq!(num_partitions(8192), 16);
}
