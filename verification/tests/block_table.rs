use paged_core::block_table::BlockTableManager;
use paged_core::AllocError;

#[test]
fn three_sequences_use_five_blocks() {
    // block_size 4, pool of 8: sequences of 3, 5 and 8 tokens take
    // 1, 2 and 2 blocks, leaving 3 free.
    let mut m = BlockTableManager::new(4, 8);
    m.add_sequence(1, 3).unwrap();
    m.add_sequence(2, 5).unwrap();
    m.add_sequence(3, 8).unwrap();
    assert_eq!(m.num_seq_blocks(1), Some(1));
    assert_eq!(m.num_seq_blocks(2), Some(2));
    assert_eq!(m.num_seq_blocks(3), Some(2));
    assert_eq!(m.num_free(), 3);
}

#[test]
fn prefill_then_decode_allocates_in_bursts() {
    // A 10-token prefill takes ceil(10/4) = 3 blocks at once; 20 decode
    // steps then allocate one block each time the context crosses a block
    // boundary, ending with ceil(30/4) = 8 blocks.
    let mut m = BlockTableManager::new(4, 8);
    m.add_sequence(1, 10).unwrap();
    assert_eq!(m.num_seq_blocks(1), Some(3));
    assert_eq!(m.num_free(), 5);
    let mut bursts = 0;
    for _ in 0..20 {
        let before = m.num_free();
        m.append_slot(1).unwrap();
        if m.num_free() < before {
            bursts += 1;
        }
    }
    assert_eq!(m.context_len_of(1), Some(30));
    assert_eq!(m.num_seq_blocks(1), Some(8));
    assert_eq!(m.num_free(), 0);
    assert_eq!(bursts, 5);
}

#[test]
fn append_slot_reports_exact_slots() {
    // With blocks vended as 0, 1, 2, ... a single sequence's slots are
    // exactly the token positions.
    let mut m = BlockTableManager::new(4, 8);
    m.add_sequence(1, 10).unwrap();
    assert_eq!(m.append_slot(1), Ok(10));
    assert_eq!(m.append_slot(1), Ok(11));
    // Crossing into a fresh block: the next free block is 3.
    assert_eq!(m.append_slot(1), Ok(12));
    assert_eq!(m.append_slot(1), Ok(13));
}

#[test]
fn append_slot_out_of_blocks_leaves_state() {
    let mut m = BlockTableManager::new(2, 1);
    m.add_sequence(1, 2).unwrap();
    assert_eq!(m.num_free(), 0);
    // The next token needs a new block and none is free.
    assert_eq!(m.append_slot(1), Err(AllocError::OutOfBlocks));
    assert_eq!(m.context_len_of(1), Some(2));
    assert_eq!(m.num_seq_blocks(1), Some(1));
}

#[test]
fn free_sequence_returns_blocks() {
    let mut m = BlockTableManager::new(4, 8);
    m.add_sequence(1, 5).unwrap();
    m.add_sequence(2, 3).unwrap();
    assert_eq!(m.num_free(), 5);
    assert_eq!(m.free_sequence(1), Ok(()));
    assert_eq!(m.num_free(), 7);
    assert_eq!(m.context_len_of(1), None);
    assert_eq!(m.context_len_of(2), Some(3));
    assert_eq!(m.free_sequence(1), Err(AllocError::NotAllocated));
}

#[test]
fn conservation_holds_through_a_workload() {
    let mut m = BlockTableManager::new(4, 16);
    let mut live: Vec<u64> = Vec::new();
    for id in 0..5u64 {
        m.add_sequence(id, (id as usize) * 3 + 1).unwrap();
        live.push(id);
    }
    let mut owned = 0;
    for id in &live {
        owned += m.num_seq_blocks(*id).unwrap();
    }
    assert_eq!(m.num_free() + owned, m.num_total());
    m.free_sequence(2).unwrap();
    m.free_sequence(4).unwrap();
    let mut owned = 0;
    for id in [0u64, 1, 3] {
        owned += m.num_seq_blocks(id).unwrap();
    }
    assert_eq!(m.num_free() + owned, m.num_total());
}

#[test]
fn decode_metadata_shapes_and_slots() {
    let mut m = BlockTableManager::new(4, 8);
    m.add_sequence(7, 6).unwrap();
    m.add_sequence(9, 2).unwrap();
    let md = m.build_metadata(&vec![7, 9], false);
    assert!(!md.is_prompt);
    assert_eq!(md.context_lens, vec![6, 2]);
    assert_eq!(md.max_context_len, 6);
    // Rows are padded to the widest block table of the batch.
    assert_eq!(md.block_tables.len(), 2);
    assert_eq!(md.block_tables[0], vec![0, 1]);
    assert_eq!(md.block_tables[1], vec![2, -1]);
    // One slot per row: the newest token of each sequence.
    assert_eq!(md.slot_mapping.len(), 2);
    assert_eq!(md.slot_mapping[0], vec![1 * 4 + 1]);
    assert_eq!(md.slot_mapping[1], vec![2 * 4 + 1]);
}

#[test]
fn prefill_metadata_covers_all_positions() {
    let mut m = BlockTableManager::new(4, 8);
    m.add_sequence(1, 5).unwrap();
    m.add_sequence(2, 2).unwrap();
    let md = m.build_metadata(&vec![1, 2], true);
    assert!(md.is_prompt);
    assert_eq!(md.max_context_len, 5);
    // Sequence 1 owns blocks 0 and 1: its slots are positions 0..5.
    assert_eq!(md.slot_mapping[0], vec![0, 1, 2, 3, 4]);
    // Sequence 2 owns block 2; the tail of its row is padding.
    assert_eq!(md.slot_mapping[1], vec![8, 9, -1, -1, -1]);
}
