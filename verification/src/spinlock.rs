use vstd::prelude::*;

verus! {

/// State of a free lock.
pub const UNLOCKED: u8 = 0;

/// State of a held lock.
pub const LOCKED: u8 = 1;

/// The lock word of a spin lock.
pub struct SpinLockImpl {
    state: u8,
}

impl SpinLockImpl {
    /// The lock word.
    pub closed spec fn state(&self) -> u8 {
        self.state
    }

    /// A free lock.
    pub fn new() -> (r: Self)
        ensures
            r.state() == UNLOCKED,
    {
        SpinLockImpl { state: UNLOCKED }
    }

    /// Takes the lock if it is free: swaps `UNLOCKED` for `LOCKED` and answers whether
    /// it did.
    pub fn try_lock(&mut self) -> (r: bool)
        ensures
            r == (old(self).state() == UNLOCKED),
            final(self).state() == (if r {
                LOCKED
            } else {
                old(self).state()
            }),
    {
        if self.state == UNLOCKED {
            self.state = LOCKED;
            true
        } else {
            false
        }
    }

    /// Spins until the lock is taken. With the lock word held exclusively here, no one
    /// else can free it, so it must be free to begin with.
    pub fn lock(&mut self)
        requires
            old(self).state() == UNLOCKED,
        ensures
            final(self).state() == LOCKED,
    {
        loop
            invariant_except_break
                self.state() == UNLOCKED,
            ensures
                self.state() == LOCKED,
            decreases 1int,
        {
            let locked = self.try_lock();
            if locked {
                break;
            }
        }
    }

    /// Frees the lock.
    pub fn unlock(&mut self)
        ensures
            final(self).state() == UNLOCKED,
    {
        self.state = UNLOCKED;
    }
}

/// A value behind a spin lock.
pub struct SpinLock<T> {
    inner: SpinLockImpl,
    data: T,
}

impl<T> SpinLock<T> {
    /// Whether the lock is held.
    pub closed spec fn is_locked(&self) -> bool {
        self.inner.state() != UNLOCKED
    }

    /// The value behind the lock.
    pub closed spec fn value(&self) -> T {
        self.data
    }

    /// A free lock around `data`.
    pub fn new(data: T) -> (r: Self)
        ensures
            !r.is_locked(),
            r.value() == data,
    {
        SpinLock { inner: SpinLockImpl::new(), data }
    }

    /// Takes the lock and gives access to the value.
    pub fn lock(&mut self) -> (r: &mut T)
        requires
            !old(self).is_locked(),
        ensures
            *r == old(self).value(),
            final(self).is_locked(),
            final(self).value() == *final(r),
    {
        self.inner.lock();
        &mut self.data
    }

    /// Takes the lock if it is free and gives access to the value; `None`, with nothing
    /// changed, when it is held.
    pub fn try_lock(&mut self) -> (r: Option<&mut T>)
        ensures
            old(self).is_locked() ==> r is None && *final(self) == *old(self),
            !old(self).is_locked() ==> (r matches Some(d) && *d == old(self).value()
                && final(self).is_locked() && final(self).value() == *final(d)),
    {
        if self.inner.try_lock() {
            Some(&mut self.data)
        } else {
            None
        }
    }

    /// Takes the lock and gives the guard that holds it.
    pub fn lock_guard(&mut self) -> (r: SpinLockGuard<'_, T>)
        requires
            !old(self).is_locked(),
        ensures
            r.lock.is_locked(),
            r.lock.value() == old(self).value(),
    {
        self.inner.lock();
        SpinLockGuard::new(self)
    }

    /// Frees the lock, as dropping a guard does.
    pub fn unlock(&mut self)
        ensures
            !final(self).is_locked(),
            final(self).value() == old(self).value(),
    {
        self.inner.unlock();
    }
}

/// Holds a spin lock: gives access to the value until it is released.
pub struct SpinLockGuard<'a, T> {
    pub lock: &'a mut SpinLock<T>,
}

impl<'a, T> SpinLockGuard<'a, T> {
    /// The value behind the held lock.
    pub closed spec fn value(&self) -> T {
        self.lock.value()
    }

    /// A guard of the held `lock`.
    pub fn new(lock: &'a mut SpinLock<T>) -> (r: Self)
        ensures
            *r.lock == *old(lock),
            *final(lock) == *final(r.lock),
    {
        SpinLockGuard { lock }
    }

    /// The value behind the lock.
    pub fn deref(&self) -> (r: &T)
        ensures
            *r == self.value(),
    {
        &self.lock.data
    }

    /// Frees the lock, as dropping the guard does.
    pub fn release(self)
    {
        self.lock.unlock();
    }
}

} // verus!
