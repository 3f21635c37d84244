use iron_batch::kv_cache::{AllocError, BlockAllocator};

#[test]
fn alloc_free_roundtrip() {
    let mut a = BlockAllocator::new(4, 16);
    assert_eq!(a.num_free_blocks(), 4);
    a.allocate_seq(1, 20).unwrap(); // needs 2 blocks
    assert_eq!(a.num_free_blocks(), 2);
    a.free_seq(1);
    assert_eq!(a.num_free_blocks(), 4);
}

#[test]
fn oom_is_clean() {
    let mut a = BlockAllocator::new(2, 16);
    a.allocate_seq(1, 32).unwrap(); // uses both blocks
    assert!(matches!(a.allocate_seq(2, 16), Err(AllocError::OutOfMemory)));
    assert_eq!(a.num_free_blocks(), 0); // failed alloc didn't leak partial state
}

#[test]
fn fork_shares_blocks_until_freed() {
    let mut a = BlockAllocator::new(4, 16);
    a.allocate_seq(1, 16).unwrap();
    assert_eq!(a.num_free_blocks(), 3);
    a.fork_seq(1, 2).unwrap();
    assert_eq!(a.num_free_blocks(), 3); // no new blocks on fork
    a.free_seq(1);
    assert_eq!(a.num_free_blocks(), 3); // still referenced by seq 2
    a.free_seq(2);
    assert_eq!(a.num_free_blocks(), 4);
}

#[test]
fn duplicate_seq_id_is_rejected_not_leaked() {
    let mut a = BlockAllocator::new(4, 16);
    a.allocate_seq(1, 16).unwrap();
    assert_eq!(a.num_free_blocks(), 3);
    assert!(matches!(
        a.allocate_seq(1, 16),
        Err(AllocError::SeqAlreadyExists(1))
    ));
    assert_eq!(a.num_free_blocks(), 3); // unchanged, original blocks intact
}

#[test]
fn grow_unknown_seq_does_not_leak_a_block() {
    let mut a = BlockAllocator::new(4, 16);
    assert!(matches!(a.grow_seq(99), Err(AllocError::UnknownSeq(99))));
    assert_eq!(a.num_free_blocks(), 4); // no block was popped and lost
}

/// fork_seq with a dst that already exists must fail and not leak the
/// existing dst's blocks.
#[test]
fn fork_seq_duplicate_dst_is_rejected() {
    let mut alloc = BlockAllocator::new(4, 16);
    alloc.allocate_seq(1, 16).unwrap();
    alloc.allocate_seq(2, 16).unwrap();
    let free_before = alloc.num_free_blocks();

    assert!(
        alloc.fork_seq(1, 2).is_err(),
        "fork into existing dst must fail"
    );
    assert_eq!(
        alloc.num_free_blocks(),
        free_before,
        "failed fork must not change free block count"
    );
    assert_eq!(alloc.fork_seq(1, 2), Err(AllocError::SeqAlreadyExists(2)));
    assert_eq!(alloc.fork_seq(1, 1), Err(AllocError::SeqAlreadyExists(1)));
    assert_eq!(alloc.fork_seq(7, 2), Err(AllocError::UnknownSeq(7)));
    assert_eq!(alloc.page_table(2), Some(vec![1]));
}

#[test]
fn blocks_come_from_the_top_of_the_stack() {
    let mut a = BlockAllocator::new(5, 16);
    assert_eq!(a.total_blocks(), 5);
    assert_eq!(a.block_size(), 16);
    a.allocate_seq(1, 33).unwrap();
    assert_eq!(a.page_table(1), Some(vec![0, 1, 2]));
    assert_eq!(a.grow_seq(1), Ok(3));
    assert_eq!(a.page_table(1), Some(vec![0, 1, 2, 3]));
    assert_eq!(a.grow_seq(1), Ok(4));
    assert_eq!(a.grow_seq(1), Err(AllocError::OutOfMemory));
    assert_eq!(a.page_table(2), None);
    a.free_seq(1);
    // the blocks went back in page table order, so the last one is on top
    a.allocate_seq(2, 32).unwrap();
    assert_eq!(a.page_table(2), Some(vec![4, 3]));
}

#[test]
fn blocks_needed_rounds_up_and_saturates() {
    let a = BlockAllocator::new(1, 16);
    assert_eq!(a.blocks_needed(0), 0);
    assert_eq!(a.blocks_needed(1), 1);
    assert_eq!(a.blocks_needed(16), 1);
    assert_eq!(a.blocks_needed(17), 2);
    assert_eq!(a.blocks_needed(u32::MAX), 268_435_455);
    assert_eq!(a.blocks_needed(u32::MAX - 15), 268_435_455);
}

#[test]
fn pathological_token_count_fails_the_allocation() {
    let mut a = BlockAllocator::new(4, 16);
    assert_eq!(a.allocate_seq(1, u32::MAX), Err(AllocError::OutOfMemory));
    assert_eq!(a.num_free_blocks(), 4);
}

#[test]
fn freeing_twice_is_freeing_once() {
    let mut a = BlockAllocator::new(4, 16);
    a.allocate_seq(1, 40).unwrap();
    a.free_seq(1);
    a.free_seq(1);
    assert_eq!(a.num_free_blocks(), 4);
    a.free_seq(12);
    assert_eq!(a.num_free_blocks(), 4);
}

#[test]
fn zero_tokens_register_an_empty_page_table() {
    let mut a = BlockAllocator::new(2, 16);
    a.allocate_seq(1, 0).unwrap();
    assert_eq!(a.page_table(1), Some(vec![]));
    assert_eq!(a.num_free_blocks(), 2);
}

#[test]
fn forked_sequences_diverge_on_growth() {
    let mut a = BlockAllocator::new(4, 16);
    a.allocate_seq(1, 16).unwrap();
    a.fork_seq(1, 2).unwrap();
    assert_eq!(a.grow_seq(2), Ok(1));
    assert_eq!(a.page_table(1), Some(vec![0]));
    assert_eq!(a.page_table(2), Some(vec![0, 1]));
    a.free_seq(2);
    assert_eq!(a.num_free_blocks(), 3);
    a.free_seq(1);
    assert_eq!(a.num_free_blocks(), 4);
}

/// Freeing undoes an allocation or a fork, with the growth in between.
#[test]
fn free_undoes_allocation_and_fork() {
    let mut a = BlockAllocator::new(4, 16);
    a.allocate_seq(1, 16).unwrap();
    a.allocate_seq(2, 16).unwrap();
    while a.grow_seq(2).is_ok() {}
    a.free_seq(2);
    assert_eq!(a.num_free_blocks(), 3);
    assert_eq!(a.page_table(1), Some(vec![0]));
    a.fork_seq(1, 2).unwrap();
    while a.grow_seq(2).is_ok() {}
    a.free_seq(2);
    a.free_seq(2);
    assert_eq!(a.num_free_blocks(), 3);
    assert_eq!(a.page_table(1), Some(vec![0]));
    assert_eq!(a.page_table(2), None);
}

/// Free blocks and blocks in use make up the pool through a mixed run.
#[test]
fn pool_is_conserved() {
    let mut a = BlockAllocator::new(8, 4);
    a.allocate_seq(1, 9).unwrap();
    a.fork_seq(1, 2).unwrap();
    a.grow_seq(2).unwrap();
    a.allocate_seq(3, 4).unwrap();
    let mut used: Vec<u32> = Vec::new();
    for id in 1..4u64 {
        for b in a.page_table(id).unwrap() {
            if !used.contains(&b) {
                used.push(b);
            }
        }
    }
    assert_eq!(used.len() as u32 + a.num_free_blocks(), 8);
    for id in 1..4u64 {
        a.free_seq(id);
    }
    assert_eq!(a.num_free_blocks(), 8);
}

/// Without forks no two sequences hold the same block.
#[test]
fn only_forks_share_blocks() {
    let mut a = BlockAllocator::new(6, 4);
    a.allocate_seq(1, 8).unwrap();
    a.allocate_seq(2, 4).unwrap();
    a.grow_seq(1).unwrap();
    a.free_seq(2);
    a.allocate_seq(3, 8).unwrap();
    let one = a.page_table(1).unwrap();
    let three = a.page_table(3).unwrap();
    assert_eq!((one.len(), three.len()), (3, 2));
    assert!(one.iter().all(|b| !three.contains(b)));
    a.fork_seq(1, 4).unwrap();
    assert_eq!(a.page_table(4), Some(one));
}
