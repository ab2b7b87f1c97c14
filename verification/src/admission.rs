//! Admission control: a counting semaphore that bounds how many
//! connections are served at the same time.

use vstd::prelude::*;

verus! {

/// A counting semaphore with a fixed number of permits.
///
/// The holder serialises access to it; acquiring never waits.
#[derive(Debug)]
pub struct ConnectionSemaphore {
    count: usize,
    max_count: usize,
}

impl ConnectionSemaphore {
    /// The permits that are free.
    pub closed spec fn available(&self) -> nat {
        self.count as nat
    }

    /// The permits that exist.
    pub closed spec fn capacity(&self) -> nat {
        self.max_count as nat
    }

    /// The permits that are handed out.
    pub open spec fn in_use(&self) -> int {
        self.capacity() - self.available()
    }

    /// No more permits are free than exist.
    pub open spec fn wf(&self) -> bool {
        self.available() <= self.capacity()
    }

    /// A semaphore with `max_count` permits, all of them free.
    pub fn new(max_count: usize) -> (sem: ConnectionSemaphore)
        ensures
            sem.wf(),
            sem.capacity() == max_count,
            sem.available() == max_count,
    {
        ConnectionSemaphore { count: max_count, max_count }
    }

    /// Takes a permit if one is free, and says whether it did.
    pub fn try_acquire(&mut self) -> (acquired: bool)
        requires
            old(self).wf(),
        ensures
            final(self).wf(),
            final(self).capacity() == old(self).capacity(),
            (acquired, final(self).available()) == attempt(old(self).available()),
    {
        if self.count > 0 {
            self.count = self.count - 1;
            true
        } else {
            false
        }
    }

    /// Gives one permit back. With every permit already free nothing changes,
    /// so a permit that is given back twice is not counted twice.
    pub fn release(&mut self)
        requires
            old(self).wf(),
        ensures
            final(self).wf(),
            final(self).capacity() == old(self).capacity(),
            final(self).available() == released(old(self).available(), old(self).capacity()),
    {
        if self.count < self.max_count {
            self.count = self.count + 1;
        }
    }

    /// The number of free permits.
    pub fn free(&self) -> (n: usize)
        ensures
            n == self.available(),
    {
        self.count
    }

    /// The number of permits that exist.
    pub fn limit(&self) -> (n: usize)
        ensures
            n == self.capacity(),
    {
        self.max_count
    }
}

/// What a semaphore with `free` permits left answers to an attempt, and how
/// many permits are free afterwards.
pub open spec fn attempt(free: nat) -> (bool, nat) {
    if free > 0 {
        (true, (free - 1) as nat)
    } else {
        (false, free)
    }
}

/// The free permits after one permit was given back: one more, but never
/// more than exist.
pub open spec fn released(free: nat, capacity: nat) -> nat {
    if free < capacity {
        free + 1
    } else {
        free
    }
}

/// The free permits after `n` attempts in a row, none given back.
pub open spec fn free_after(free: nat, n: nat) -> nat
    decreases n,
{
    if n == 0 {
        free
    } else {
        attempt(free_after(free, (n - 1) as nat)).1
    }
}

/// Of attempts made in a row on a semaphore with `n` free permits, the
/// first `n` succeed and the one after them fails.
pub proof fn lemma_bound_holds(n: nat, k: nat)
    ensures
        k <= n ==> free_after(n, k) == n - k,
        k < n ==> attempt(free_after(n, k)).0,
        k >= n ==> free_after(n, k) == 0 && !attempt(free_after(n, k)).0,
    decreases k,
{
    if k > 0 {
        lemma_bound_holds(n, (k - 1) as nat);
    }
}

/// With every permit taken, giving one back lets exactly one more attempt
/// succeed: the next attempt gets the permit and the one after it fails.
pub proof fn lemma_release_admits_one(capacity: nat)
    requires
        capacity > 0,
    ensures
        !attempt(free_after(capacity, capacity)).0,
        attempt(released(free_after(capacity, capacity), capacity)).0,
        !attempt(attempt(released(free_after(capacity, capacity), capacity)).1).0,
{
    lemma_bound_holds(capacity, capacity);
}

} // verus!
