use paged_core::AllocError;
use paged_core::BlockAllocator;

#[test]
fn vends_blocks_in_order() {
    let mut a = BlockAllocator::new(3);
    assert_eq!(a.num_total(), 3);
    assert_eq!(a.num_free(), 3);
    assert_eq!(a.allocate(), Ok(0));
    assert_eq!(a.allocate(), Ok(1));
    assert_eq!(a.allocate(), Ok(2));
    assert_eq!(a.num_free(), 0);
    assert_eq!(a.allocate(), Err(AllocError::OutOfBlocks));
}

#[test]
fn free_then_reallocate_is_lifo() {
    let mut a = BlockAllocator::new(4);
    for _ in 0..4 {
        a.allocate().unwrap();
    }
    assert_eq!(a.free(2), Ok(()));
    assert_eq!(a.free(0), Ok(()));
    // The free stack is LIFO: the last block freed is vended first.
    assert_eq!(a.allocate(), Ok(0));
    assert_eq!(a.allocate(), Ok(2));
}

#[test]
fn double_free_is_detected() {
    let mut a = BlockAllocator::new(2);
    let b = a.allocate().unwrap();
    assert_eq!(a.free(b), Ok(()));
    assert_eq!(a.free(b), Err(AllocError::NotAllocated));
    // An ID outside the pool is rejected the same way.
    assert_eq!(a.free(99), Err(AllocError::NotAllocated));
}

#[test]
fn allocate_n_is_all_or_nothing() {
    let mut a = BlockAllocator::new(4);
    let got = a.allocate_n(3).unwrap();
    assert_eq!(got, vec![0, 1, 2]);
    assert_eq!(a.num_free(), 1);
    // Not enough blocks left: nothing changes.
    assert_eq!(a.allocate_n(2), Err(AllocError::OutOfBlocks));
    assert_eq!(a.num_free(), 1);
    assert_eq!(a.allocate_n(1).unwrap(), vec![3]);
}

#[test]
fn allocation_state_is_observable() {
    let mut a = BlockAllocator::new(2);
    assert!(!a.is_allocated(0));
    let b = a.allocate().unwrap();
    assert!(a.is_allocated(b));
    a.free(b).unwrap();
    assert!(!a.is_allocated(b));
}
