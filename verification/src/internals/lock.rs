//! Spin locks, modelled as the state a single thread of control sees.
use crate::slab::NUM_SIZE_CLASSES;
use vstd::prelude::*;

verus! {

/// A test-and-set spin lock.
pub struct SerialLock {
    state: bool,
}

impl SerialLock {
    /// The lock is held.
    pub closed spec fn is_locked(&self) -> bool {
        self.state
    }

    /// An unlocked lock.
    pub fn new() -> (l: SerialLock)
        ensures
            !l.is_locked(),
    {
        SerialLock { state: false }
    }

    /// Takes the lock. The lock must be free: taking a held lock spins
    /// until another thread releases it.
    pub fn lock(&mut self)
        requires
            !old(self).is_locked(),
        ensures
            final(self).is_locked(),
    {
        self.state = true;
    }

    /// Releases the lock.
    pub fn unlock(&mut self)
        ensures
            !final(self).is_locked(),
    {
        self.state = false;
    }

    /// Releases the lock in a child process after `fork`.
    pub fn reset_on_fork(&mut self)
        ensures
            !final(self).is_locked(),
    {
        self.unlock();
    }
}

/// One spin lock per size class.
pub struct GlobalLock {
    locks: Vec<SerialLock>,
}

impl GlobalLock {
    /// Number of locks.
    pub closed spec fn len(&self) -> nat {
        self.locks@.len()
    }

    /// The lock of class `class` is held.
    pub closed spec fn is_locked(&self, class: int) -> bool {
        self.locks@[class].is_locked()
    }

    /// One unlocked lock per size class.
    pub fn new() -> (g: GlobalLock)
        ensures
            g.len() == NUM_SIZE_CLASSES,
            forall|c: int| 0 <= c < NUM_SIZE_CLASSES ==> !#[trigger] g.is_locked(c),
    {
        let mut locks: Vec<SerialLock> = Vec::new();
        let mut i: usize = 0;
        while i < NUM_SIZE_CLASSES
            invariant
                i <= NUM_SIZE_CLASSES,
                locks.len() == i,
                forall|c: int| 0 <= c < i ==> !#[trigger] locks@[c].is_locked(),
            decreases NUM_SIZE_CLASSES - i,
        {
            locks.push(SerialLock::new());
            i = i + 1;
        }
        GlobalLock { locks }
    }

    /// Takes the lock of `class`, which must be free.
    pub fn lock(&mut self, class: usize)
        requires
            class < old(self).len(),
            !old(self).is_locked(class as int),
        ensures
            final(self).len() == old(self).len(),
            final(self).is_locked(class as int),
            forall|c: int| 0 <= c < old(self).len() && c != class ==> #[trigger] final(self).is_locked(c) == old(self).is_locked(c),
    {
        self.locks[class].lock();
    }

    /// Releases the lock of `class`.
    pub fn unlock(&mut self, class: usize)
        requires
            class < old(self).len(),
        ensures
            final(self).len() == old(self).len(),
            !final(self).is_locked(class as int),
            forall|c: int| 0 <= c < old(self).len() && c != class ==> #[trigger] final(self).is_locked(c) == old(self).is_locked(c),
    {
        self.locks[class].unlock();
    }

    /// Releases every lock in a child process after `fork`.
    pub fn reset_on_fork(&mut self)
        ensures
            final(self).len() == old(self).len(),
            forall|c: int| 0 <= c < old(self).len() ==> !#[trigger] final(self).is_locked(c),
    {
        let mut class: usize = 0;
        while class < self.locks.len()
            invariant
                class <= self.locks.len(),
                self.locks.len() == old(self).len(),
                forall|c: int| 0 <= c < class ==> !#[trigger] self.locks@[c].is_locked(),
            decreases self.locks.len() - class,
        {
            self.locks[class].reset_on_fork();
            class = class + 1;
        }
    }
}

} // verus!
