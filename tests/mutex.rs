use std::sync::atomic::{AtomicBool, Ordering};

use shared_arena::mutex::MemoryMutex;

#[test]
fn lock_is_exclusive_until_the_guard_drops() {
    let word = AtomicBool::new(false);
    let mutex = MemoryMutex::new(&word, 100);
    let guard = mutex.try_lock().expect("free lock");
    assert!(word.load(Ordering::SeqCst));
    assert!(mutex.try_lock().is_none());
    drop(guard);
    assert!(!word.load(Ordering::SeqCst));
    assert!(mutex.try_lock().is_some());
}

#[test]
fn guard_covers_everything_after_the_lock_word() {
    let word = AtomicBool::new(false);
    let mutex = MemoryMutex::new(&word, 100);
    let guard = mutex.try_lock().unwrap();
    assert_eq!(MemoryMutex::SIZE, 1);
    assert_eq!(guard.buffer(), 1);
    assert_eq!(guard.size(), 99);
}
