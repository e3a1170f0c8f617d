//! The lock word at the start of the arena and the handle that holding it gives.
use vstd::prelude::*;
use std::sync::atomic::{AtomicBool, Ordering};

verus! {

/// Exclusive access to the guarded region, released when the handle is dropped.
pub struct MemoryGuard<'a> {
    locker: &'a AtomicBool,
    size: usize,
}

impl<'a> MemoryGuard<'a> {
    /// Length of the guarded region.
    pub closed spec fn region_size(&self) -> nat {
        self.size as nat
    }

    /// Offset of the guarded region in the arena: it starts after the lock word.
    pub fn buffer(&self) -> (r: usize)
        ensures
            r == MemoryMutex::SIZE,
    {
        MemoryMutex::SIZE
    }

    /// Length of the guarded region.
    pub fn size(&self) -> (r: usize)
        ensures
            r == self.region_size(),
    {
        self.size
    }
}

impl<'a> Drop for MemoryGuard<'a> {
    fn drop(&mut self)
        opens_invariants none
        no_unwind
    {
        unlock(self.locker);
    }
}

/// Relies on `AtomicBool::store`, which with `SeqCst` ordering neither panics
/// nor opens invariants: it clears the lock word.
#[verifier::external_body]
fn unlock(locker: &AtomicBool)
    opens_invariants none
    no_unwind
{
    locker.store(false, Ordering::SeqCst);
}

/// The lock word of an arena of `size` bytes.
pub struct MemoryMutex<'a> {
    locker: &'a AtomicBool,
    size: usize,
}

impl<'a> MemoryMutex<'a> {
    /// Bytes that the lock word takes at the start of the arena.
    pub const SIZE: usize = 1;

    #[verifier::type_invariant]
    spec fn inv(self) -> bool {
        self.size >= Self::SIZE
    }

    /// Length of the whole arena, lock word included.
    pub closed spec fn arena_size(&self) -> nat {
        self.size as nat
    }

    /// The lock of an arena of `size` bytes whose lock word is `locker`.
    pub fn new(locker: &'a AtomicBool, size: usize) -> (r: Self)
        requires
            size >= Self::SIZE,
        ensures
            r.arena_size() == size,
    {
        MemoryMutex { locker, size }
    }

    /// One attempt to turn the lock word from unlocked to locked. On success the
    /// handle covers everything after the lock word; on failure another holder
    /// has the lock.
    pub fn try_lock(&self) -> (r: Option<MemoryGuard<'a>>)
        ensures
            r matches Some(g) ==> g.region_size() == self.arena_size() - Self::SIZE,
    {
        proof {
            use_type_invariant(self);
        }
        match self.locker.compare_exchange(false, true, Ordering::SeqCst, Ordering::SeqCst) {
            Ok(_) => Some(MemoryGuard { locker: self.locker, size: self.size - Self::SIZE }),
            Err(_) => None,
        }
    }
}

} // verus!
