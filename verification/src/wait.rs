//! Threads parked on a user address: a bounded pool of enrollments, first in,
//! first out per key.
use vstd::prelude::*;
use crate::config::MAX_WAITERS;
use crate::error::KError;
use crate::slots;
use crate::thread::ThreadId;

verus! {

/// What a thread waits on: an address in an address space.
#[derive(Clone, Copy, PartialEq, Eq, Debug, Structural)]
pub struct WaitKey {
    pub space: u32,
    pub address: u64,
}

/// One enrollment.
#[derive(Clone, Copy, PartialEq, Eq, Debug, Structural)]
pub struct Waiter {
    pub key: WaitKey,
    pub thread: ThreadId,
}

/// The enrollments, oldest first.
pub struct WaitSet {
    waiters: Vec<Waiter>,
}

/// The predicate of an enrollment on `key`.
pub open spec fn on(key: WaitKey) -> spec_fn(Waiter) -> bool {
    |w: Waiter| w.key == key
}

impl View for WaitSet {
    type V = Seq<Waiter>;

    closed spec fn view(&self) -> Seq<Waiter> {
        self.waiters@
    }
}

impl WaitSet {
    /// The pool's invariant.
    pub open spec fn wf(&self) -> bool {
        self@.len() <= MAX_WAITERS
    }

    pub fn new() -> (w: WaitSet)
        ensures
            w.wf(),
            w@ == Seq::<Waiter>::empty(),
    {
        WaitSet { waiters: Vec::new() }
    }

    /// Enrolls `thread` on `key`; a full pool refuses rather than dropping the
    /// waiter.
    pub fn enroll(&mut self, key: WaitKey, thread: ThreadId) -> (r: Result<(), KError>)
        requires
            old(self).wf(),
        ensures
            final(self).wf(),
            match r {
                Ok(_) => {
                    &&& old(self)@.len() < MAX_WAITERS
                    &&& final(self)@ == old(self)@.push(Waiter { key, thread })
                },
                Err(e) => {
                    &&& e == KError::OutOfMemory
                    &&& old(self)@.len() == MAX_WAITERS
                    &&& final(self)@ == old(self)@
                },
            },
    {
        if self.waiters.len() >= MAX_WAITERS {
            return Err(KError::OutOfMemory);
        }
        self.waiters.push(Waiter { key, thread });
        Ok(())
    }

    /// Removes and returns the thread enrolled on `key` the longest.
    pub fn pop_matching(&mut self, key: WaitKey) -> (r: Option<ThreadId>)
        requires
            old(self).wf(),
        ensures
            final(self).wf(),
            ({
                let at = slots::first(old(self)@, on(key));
                match r {
                    Some(thread) => {
                        &&& 0 <= at < old(self)@.len()
                        &&& thread == old(self)@[at].thread
                        &&& final(self)@ == old(self)@.remove(at)
                    },
                    None => at == old(self)@.len() && final(self)@ == old(self)@,
                }
            }),
    {
        let mut i: usize = 0;
        while i < self.waiters.len()
            invariant
                self.wf(),
                *self == *old(self),
                i <= self@.len(),
                forall|j: int| 0 <= j < i ==> !on(key)(#[trigger] self@[j]),
            decreases self@.len() - i,
        {
            if self.waiters[i].key == key {
                proof {
                    slots::lemma_first_is(self@, on(key), i as int);
                }
                let w = self.waiters.remove(i);
                return Some(w.thread);
            }
            i += 1;
        }
        proof {
            slots::lemma_first_is(self@, on(key), i as int);
        }
        None
    }
}

impl Default for WaitSet {
    fn default() -> (w: WaitSet)
        ensures
            w.wf(),
            w@ == Seq::<Waiter>::empty(),
    {
        WaitSet::new()
    }
}

/// The longest enrolled on a key is the first in the list that is on it, address
/// and space both.
pub proof fn law_a_key_is_an_address_in_a_space(key: WaitKey, w: Waiter)
    ensures
        on(key)(w) <==> w.key.space == key.space && w.key.address == key.address,
{
}

} // verus!
