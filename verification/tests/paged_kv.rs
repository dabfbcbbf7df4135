use sovereign_os::paged_kv::{PagedKvCache, PagedKvError};

#[test]
fn append_allocates_blocks_on_boundary() {
    let mut c = PagedKvCache::new(10, 4);
    let s = c.new_sequence();
    c.append(s, 3).unwrap();
    assert_eq!(c.blocks_of(s).unwrap().len(), 1);
    assert_eq!(c.num_free_blocks(), 9);
    c.append(s, 2).unwrap();
    assert_eq!(c.blocks_of(s).unwrap().len(), 2);
    assert_eq!(c.sequence_len(s), Some(5));
}

#[test]
fn block_for_resolves_positions() {
    let mut c = PagedKvCache::new(10, 4);
    let s = c.new_sequence();
    c.append(s, 6).unwrap();
    let blocks = c.blocks_of(s).unwrap().to_vec();
    assert_eq!(c.block_for(s, 0).unwrap(), (blocks[0], 0));
    assert_eq!(c.block_for(s, 5).unwrap(), (blocks[1], 1));
    assert!(matches!(c.block_for(s, 6), Err(PagedKvError::OutOfRange { .. })));
}

#[test]
fn fork_shares_blocks_copy_on_write() {
    let mut c = PagedKvCache::new(10, 4);
    let parent = c.new_sequence();
    c.append(parent, 8).unwrap();
    let free_before = c.num_free_blocks();
    let child = c.fork(parent).unwrap();
    assert_eq!(c.num_free_blocks(), free_before);
    assert_eq!(c.blocks_of(parent), c.blocks_of(child));
}

#[test]
fn cow_duplicates_on_write_into_shared_block() {
    let mut c = PagedKvCache::new(10, 4);
    let parent = c.new_sequence();
    c.append(parent, 2).unwrap();
    let child = c.fork(parent).unwrap();
    let shared_block = c.blocks_of(parent).unwrap()[0];
    c.append(child, 1).unwrap();
    let child_block = c.blocks_of(child).unwrap()[0];
    assert_ne!(child_block, shared_block, "child should have copied the block");
    assert_eq!(c.blocks_of(parent).unwrap()[0], shared_block);
}

#[test]
fn free_returns_blocks_to_pool() {
    let mut c = PagedKvCache::new(5, 4);
    let s = c.new_sequence();
    c.append(s, 12).unwrap();
    assert_eq!(c.num_free_blocks(), 2);
    c.free(s).unwrap();
    assert_eq!(c.num_free_blocks(), 5);
    assert!(matches!(c.free(s), Err(PagedKvError::UnknownSequence(_))));
}

#[test]
fn free_respects_shared_refcounts() {
    let mut c = PagedKvCache::new(10, 4);
    let parent = c.new_sequence();
    c.append(parent, 8).unwrap();
    let child = c.fork(parent).unwrap();
    let free_after_fork = c.num_free_blocks();
    c.free(child).unwrap();
    assert_eq!(c.num_free_blocks(), free_after_fork);
    c.free(parent).unwrap();
    assert_eq!(c.num_free_blocks(), 10);
}

#[test]
fn out_of_memory_is_reported() {
    let mut c = PagedKvCache::new(2, 4);
    let s = c.new_sequence();
    let err = c.append(s, 12).unwrap_err();
    assert!(matches!(err, PagedKvError::OutOfMemory { .. }));
    assert!(c.num_free_blocks() <= 2);
}

#[test]
fn new_cache_reports_its_geometry() {
    let c = PagedKvCache::new(7, 16);
    assert_eq!(c.block_size(), 16);
    assert_eq!(c.total_blocks(), 7);
    assert_eq!(c.num_free_blocks(), 7);
}

#[test]
fn low_block_ids_are_handed_out_first() {
    let mut c = PagedKvCache::new(4, 2);
    let s = c.new_sequence();
    c.append(s, 5).unwrap();
    assert_eq!(c.blocks_of(s).unwrap(), &[0, 1, 2]);
}

#[test]
fn out_of_memory_reports_needed_and_free() {
    let mut c = PagedKvCache::new(2, 4);
    let s = c.new_sequence();
    assert_eq!(c.append(s, 12), Err(PagedKvError::OutOfMemory { needed: 3, free: 2 }));
}

#[test]
fn unknown_sequences_are_reported() {
    let mut c = PagedKvCache::new(2, 4);
    assert_eq!(c.append(9, 1), Err(PagedKvError::UnknownSequence(9)));
    assert_eq!(c.fork(9), Err(PagedKvError::UnknownSequence(9)));
    assert_eq!(c.block_for(9, 0), Err(PagedKvError::UnknownSequence(9)));
    assert_eq!(c.sequence_len(9), None);
    assert_eq!(c.blocks_of(9), None);
}

#[test]
fn out_of_range_reports_position_and_length() {
    let mut c = PagedKvCache::new(4, 4);
    let s = c.new_sequence();
    c.append(s, 3).unwrap();
    assert_eq!(c.block_for(s, 3), Err(PagedKvError::OutOfRange { pos: 3, len: 3 }));
}

#[test]
fn fork_then_free_restores_the_pool() {
    let mut c = PagedKvCache::new(6, 4);
    let s = c.new_sequence();
    c.append(s, 9).unwrap();
    let before = c.num_free_blocks();
    let child = c.fork(s).unwrap();
    c.free(child).unwrap();
    assert_eq!(c.num_free_blocks(), before);
    assert_eq!(c.blocks_of(s).unwrap().len(), 3);
}

#[test]
fn sequence_ids_are_distinct() {
    let mut c = PagedKvCache::new(2, 4);
    let a = c.new_sequence();
    let b = c.new_sequence();
    assert_ne!(a, b);
    assert_eq!(c.sequence_len(a), Some(0));
}

#[test]
fn growing_a_fork_leaves_its_parent_alone() {
    let mut c = PagedKvCache::new(8, 4);
    let parent = c.new_sequence();
    c.append(parent, 6).unwrap();
    let parent_blocks = c.blocks_of(parent).unwrap().to_vec();
    let child = c.fork(parent).unwrap();
    c.append(child, 7).unwrap();
    assert_eq!(c.sequence_len(child), Some(13));
    assert_eq!(c.blocks_of(child).unwrap().len(), 4);
    assert_eq!(c.sequence_len(parent), Some(6));
    assert_eq!(c.blocks_of(parent).unwrap(), parent_blocks.as_slice());
}

#[test]
fn a_failed_append_keeps_the_length() {
    let mut c = PagedKvCache::new(2, 4);
    let s = c.new_sequence();
    c.append(s, 3).unwrap();
    let err = c.append(s, 10).unwrap_err();
    assert!(matches!(err, PagedKvError::OutOfMemory { .. }));
    assert_eq!(c.sequence_len(s), Some(3));
    assert_eq!(c.blocks_of(s).unwrap().len(), 1);
}
