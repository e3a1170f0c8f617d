use std::sync::atomic::AtomicBool;

use shared_arena::allocator::{arena_size_ok, Allocator};
use shared_arena::mutex::MemoryMutex;

fn create_allocator() -> (Allocator<'static>, Vec<u8>) {
    let lock: &'static AtomicBool = Box::leak(Box::new(AtomicBool::new(false)));
    let mutex = MemoryMutex::new(lock, 100);
    let guard = mutex.try_lock().expect("a fresh lock word is free");
    let region = vec![0u8; guard.size()];
    (Allocator::new(guard), region)
}

fn word_at(region: &[u8], at: usize) -> u64 {
    let mut bytes = [0u8; 8];
    bytes.copy_from_slice(&region[at..at + 8]);
    u64::from_le_bytes(bytes)
}

#[test]
fn test_allocate() {
    let (allocator, mut region) = create_allocator();

    let data = allocator.allocate(&mut region, 4);
    assert_eq!(data.is_some(), true, "The result should be Some(*mut u8)");
    assert_eq!(data.unwrap() == 0, false, "Pointer must not be null");

    let data = allocator.allocate(&mut region, 100);
    assert!(data.is_none(), "Result should be None");
}

#[test]
fn test_allocate_more() {
    let (allocator, mut region) = create_allocator();

    let data = allocator.allocate(&mut region, 4);
    assert_eq!(data.is_some(), true, "The result should be Some(*mut u8)");
    assert_eq!(data.unwrap() == 0, false, "Pointer must not be null");

    let data2 = allocator.allocate_more(&mut region, 4, data.unwrap());
    assert!(data2.is_some(), "Result should be Some(*mut u8)");
    assert!(data2.unwrap() != 0, "Pointer must not be null");
}

#[test]
fn test_deallocate() {
    let (a, mut region) = create_allocator();

    let data = a.allocate(&mut region, 4);
    assert_eq!(data.is_some(), true, "The result should be Some(*mut u8)");
    assert_eq!(data.unwrap() == 0, false, "Pointer must not be null");

    assert!(
        a.deallocate(&mut region, data.unwrap()),
        "The result should be true because the pointer is still allocated"
    );
    assert!(
        !a.deallocate(&mut region, data.unwrap()),
        "The result should be false because the pointer is already deallocated"
    );
}

#[test]
fn test_deallocate_parent() {
    let (allocator, mut region) = create_allocator();

    let parent = allocator.allocate(&mut region, 4);
    assert!(parent.is_some(), "The result should be Some(*mut u8)");
    assert!(parent.unwrap() != 0, "Pointer must not be null");

    let child = allocator.allocate_more(&mut region, 4, parent.unwrap());
    assert!(child.is_some(), "The result should be Some(*mut u8)");
    assert!(child.unwrap() != 0, "Pointer must not be null");

    assert!(
        allocator.deallocate(&mut region, parent.unwrap()),
        "Result should be true because the parent is still allocated"
    );
    assert!(
        !allocator.deallocate(&mut region, parent.unwrap()),
        "Result should be false because the parent is deallocated"
    );
    assert!(
        !allocator.deallocate(&mut region, child.unwrap()),
        "Result should be false because the parent was deallocated"
    );
}

#[test]
fn test_deallocate_child() {
    let (allocator, mut region) = create_allocator();

    let parent = allocator.allocate(&mut region, 4);
    assert!(parent.is_some(), "The result should be Some(*mut u8)");
    assert!(parent.unwrap() != 0, "Pointer must not be null");

    let child = allocator.allocate_more(&mut region, 4, parent.unwrap());
    assert!(child.is_some(), "The result should be Some(*mut u8)");
    assert!(child.unwrap() != 0, "Pointer must not be null");

    assert!(
        allocator.deallocate(&mut region, child.unwrap()),
        "Result should be true because the child is still allocated"
    );
    assert!(
        !allocator.deallocate(&mut region, child.unwrap()),
        "Result should be false because the child is deallocated"
    );
    assert!(
        allocator.deallocate(&mut region, parent.unwrap()),
        "Result should be true because the parent is still allocated"
    );
    assert!(
        !allocator.deallocate(&mut region, parent.unwrap()),
        "Result should be false because the parent was deallocated"
    );
}

#[test]
fn first_fit_offsets_in_a_hundred_byte_arena() {
    let (allocator, mut region) = create_allocator();
    assert_eq!(region.len(), 99);
    // Head sentinel at 0..24, so the first header sits at 24 and its payload at 48.
    assert_eq!(allocator.allocate(&mut region, 4), Some(48));
    assert_eq!(allocator.allocate(&mut region, 4), Some(76));
    // 99 - 80 = 19 bytes remain: not even a header fits.
    assert_eq!(allocator.allocate(&mut region, 1), None);
    assert_eq!(allocator.allocate(&mut region, 100), None);
}

#[test]
fn headers_are_stored_in_the_region_bytes() {
    let (allocator, mut region) = create_allocator();
    let parent = allocator.allocate(&mut region, 4).unwrap();
    let child = allocator.allocate_more(&mut region, 3, parent).unwrap();
    assert_eq!((parent, child), (48, 76));
    // Head sentinel: size 0, next 24.
    assert_eq!(word_at(&region, 0), 0);
    assert_eq!(word_at(&region, 8), 24);
    // First block: size 4, next 52, no parent.
    assert_eq!(word_at(&region, 24), 4);
    assert_eq!(word_at(&region, 32), 52);
    assert_eq!(word_at(&region, 40), 0);
    // Second block: size 3, tail, parent 48.
    assert_eq!(word_at(&region, 52), 3);
    assert_eq!(word_at(&region, 60), 0);
    assert_eq!(word_at(&region, 68), 48);
}

#[test]
fn release_clears_the_block_and_relinks() {
    let (allocator, mut region) = create_allocator();
    let a = allocator.allocate(&mut region, 4).unwrap();
    let b = allocator.allocate(&mut region, 4).unwrap();
    region[a] = 7;
    region[b] = 9;
    assert!(allocator.deallocate(&mut region, a));
    assert_eq!(word_at(&region, 8), 52);
    assert!(region[24..52].iter().all(|&x| x == 0));
    assert_eq!(region[b], 9);
}

#[test]
fn freed_gap_is_reused_first() {
    let (allocator, mut region) = create_allocator();
    let a = allocator.allocate(&mut region, 4).unwrap();
    let _b = allocator.allocate(&mut region, 4).unwrap();
    assert!(allocator.deallocate(&mut region, a));
    // The 28-byte gap before b takes a header and 4 bytes, not 5.
    assert_eq!(allocator.allocate(&mut region, 5), None);
    assert_eq!(allocator.allocate(&mut region, 4), Some(48));
}

#[test]
fn releasing_everything_in_any_order_restores_capacity() {
    let (allocator, mut region) = create_allocator();
    let fresh_max = 99 - 2 * Allocator::MIN_SIZE;
    let a = allocator.allocate(&mut region, 10).unwrap();
    let b = allocator.allocate_more(&mut region, 5, a).unwrap();
    assert_eq!(allocator.allocate(&mut region, 1), None);
    assert!(allocator.deallocate(&mut region, b));
    assert!(allocator.deallocate(&mut region, a));
    assert_eq!(word_at(&region, 8), 0);
    assert_eq!(allocator.allocate(&mut region, fresh_max + 1), None);
    assert_eq!(allocator.allocate(&mut region, fresh_max), Some(48));
}

#[test]
fn zero_size_request_gets_nothing() {
    let (allocator, mut region) = create_allocator();
    assert_eq!(allocator.allocate(&mut region, 0), None);
    assert_eq!(allocator.allocate_more(&mut region, 0, 48), None);
    assert!(region.iter().all(|&x| x == 0));
    assert_eq!(allocator.allocate(&mut region, 1), Some(48));
}

#[test]
fn foreign_addresses_are_not_released() {
    let (allocator, mut region) = create_allocator();
    let a = allocator.allocate(&mut region, 4).unwrap();
    assert_eq!(a, 48);
    region[a] = 5;
    let before = region.clone();
    assert!(!allocator.deallocate(&mut region, 50));
    assert!(!allocator.deallocate(&mut region, 24));
    assert_eq!(region, before);
    assert_eq!(word_at(&region, 8), 24);
    assert!(allocator.deallocate(&mut region, a));
}

#[test]
fn grouping_is_one_level_deep() {
    let (allocator, mut region) = create_allocator();
    let p = allocator.allocate(&mut region, 1).unwrap();
    let c = allocator.allocate_more(&mut region, 1, p).unwrap();
    assert!(allocator.deallocate(&mut region, p));
    assert!(!allocator.deallocate(&mut region, c));
    let p2 = allocator.allocate(&mut region, 1).unwrap();
    let c2 = allocator.allocate_more(&mut region, 1, p2).unwrap();
    assert_eq!((p2, c2), (48, 73));
    assert!(allocator.deallocate(&mut region, c2));
    assert!(allocator.deallocate(&mut region, p2));
}

#[test]
fn arena_size_must_hold_lock_word_and_head() {
    assert!(!arena_size_ok(0));
    assert!(!arena_size_ok(24));
    assert!(arena_size_ok(25));
    assert!(arena_size_ok(100));
}
