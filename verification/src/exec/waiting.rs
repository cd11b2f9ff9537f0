//! Waiting on a user address, and waking those who do.
use vstd::prelude::*;
use crate::error::KError;
use crate::exec::{ExecView, Executive, MachineView, Residence};
use crate::occupancy::Site;
use crate::sched::Switch;
use crate::slots;
use crate::thread::ThreadId;
use crate::wait::{on, WaitKey, Waiter};

verus! {

impl ExecView {
    /// With the enrollments replaced.
    pub open spec fn with_waits(self, waits: Seq<Waiter>) -> ExecView {
        ExecView { machine: MachineView { waits, ..self.machine }, ..self }
    }

    /// The executive after up to `count` threads waiting on `key` are woken,
    /// longest waiting first, and how many were. A thread that has exited is
    /// dropped and does not count. At most `fuel` enrollments are looked at.
    pub open spec fn waked(self, cpu: u32, key: WaitKey, count: nat, fuel: nat) -> (ExecView, nat)
        decreases fuel,
    {
        let waits = self.machine.waits;
        let at = slots::first(waits, on(key));
        if count == 0 || fuel == 0 || at >= waits.len() {
            (self, 0)
        } else {
            let id = waits[at].thread;
            let v = self.with_waits(waits.remove(at));
            if v.residence(cpu, id) == Residence::Gone {
                v.waked(cpu, key, count, (fuel - 1) as nat)
            } else {
                let (w, n) = v.woken(cpu, id).waked(
                    cpu,
                    key,
                    (count - 1) as nat,
                    (fuel - 1) as nat,
                );
                (w, n + 1)
            }
        }
    }
}

/// What waiting comes to for a thread inside whose word read as `word`.
pub open spec fn wait_step(
    v: ExecView,
    w: ExecView,
    cpu: u32,
    waiter: Waiter,
    expected: u64,
    word: Result<u64, KError>,
    r: Result<Switch, KError>,
) -> bool {
    let out = v.left(cpu, Site::WaitOnAddress);
    match word {
        Err(e) => r == Err::<Switch, _>(e) && w == out,
        Ok(x) => if x != expected {
            r == Err::<Switch, _>(KError::WouldBlock) && w == out
        } else if v.machine.waits.len() == crate::config::MAX_WAITERS {
            r == Err::<Switch, _>(KError::OutOfMemory) && w == out
        } else {
            let e = v.with_waits(v.machine.waits.push(waiter));
            r == Ok::<_, KError>(e.park_switch(cpu)) && w == e.parked(cpu)
        },
    }
}

impl Executive {
    /// Blocks the running thread on `key` if the word it names, which `read`
    /// fetches, still holds `expected`. A mismatch is [`KError::WouldBlock`]
    /// without blocking: the value changed under the caller. The word is read
    /// here, in the section that enrolls, so no wake can come between. The
    /// thread finishes with
    /// [`wait_on_address_resume`](Self::wait_on_address_resume).
    pub fn wait_on_address<R: FnOnce() -> Result<u64, KError>>(
        &mut self,
        cpu: u32,
        key: WaitKey,
        expected: u64,
        read: R,
    ) -> (r: Result<Switch, KError>)
        requires
            old(self).wf(),
            old(self)@.can_switch(cpu),
            call_requires(read, ()),
        ensures
            final(self).wf(),
            ({
                let v = old(self)@.entered(cpu, Site::WaitOnAddress);
                match v.running_id(cpu) {
                    None => {
                        &&& r == Err::<Switch, _>(KError::BadHandle)
                        &&& final(self)@ == v.left(cpu, Site::WaitOnAddress)
                    },
                    Some(me) => exists|word: Result<u64, KError>| #[trigger]
                        call_ensures(read, (), word) && wait_step(
                            v,
                            final(self)@,
                            cpu,
                            Waiter { key, thread: me },
                            expected,
                            word,
                            r,
                        ),
                }
            }),
    {
        self.enter_blocking(cpu, Site::WaitOnAddress);
        let ghost v = self@;
        let me: ThreadId = match self.current_id(cpu) {
            None => {
                self.leave_blocking(cpu, Site::WaitOnAddress);
                return Err(KError::BadHandle);
            },
            Some(id) => id,
        };
        let word: Result<u64, KError> = read();
        assert(call_ensures(read, (), word));
        match word {
            Err(e) => {
                self.leave_blocking(cpu, Site::WaitOnAddress);
                return Err(e);
            },
            Ok(w) => {
                if w != expected {
                    self.leave_blocking(cpu, Site::WaitOnAddress);
                    return Err(KError::WouldBlock);
                }
            },
        }
        // Enrolled before parking; a full pool refuses.
        let enrolled = self.machine.waits.enroll(key, me);
        assert(self@ =~= v.with_waits(self.machine.waits@));
        match enrolled {
            Err(e) => {
                assert(self@ =~= v);
                self.leave_blocking(cpu, Site::WaitOnAddress);
                Err(e)
            },
            Ok(_) => Ok(self.park_current(cpu)),
        }
    }

    /// What a thread that parked in [`wait_on_address`](Self::wait_on_address)
    /// does when it runs again.
    pub fn wait_on_address_resume(&mut self, cpu: u32)
        requires
            old(self).wf(),
        ensures
            final(self).wf(),
            final(self)@ == old(self)@.left(cpu, Site::WaitOnAddress),
    {
        self.leave_blocking(cpu, Site::WaitOnAddress);
    }

    /// Wakes up to `count` threads blocked on `key`, returning how many were
    /// woken. `count` 0 wakes none, `u32::MAX` wakes all.
    pub fn wake(&mut self, cpu: u32, key: WaitKey, count: u32) -> (n: usize)
        requires
            old(self).wf(),
        ensures
            final(self).wf(),
            ({
                let v = old(self)@;
                let (w, k) = v.waked(cpu, key, count as nat, v.machine.waits.len());
                final(self)@ == w && n == k
            }),
    {
        let ghost v = self@;
        let ghost end = v.waked(cpu, key, count as nat, v.machine.waits.len());
        let mut n: u32 = 0;
        let ghost mut fuel: nat = v.machine.waits.len();
        while n < count
            invariant
                self.wf(),
                n <= count,
                fuel == self@.machine.waits.len(),
                ({
                    let (w, k) = self@.waked(cpu, key, (count - n) as nat, fuel);
                    w == end.0 && n + k == end.1
                }),
            ensures
                self.wf(),
                self@ == end.0,
                n == end.1,
            decreases fuel,
        {
            let ghost before = self@;
            let ghost at = slots::first(before.machine.waits, on(key));
            let popped = self.machine.waits.pop_matching(key);
            assert(self@ =~= before.with_waits(self.machine.waits@));
            match popped {
                None => {
                    assert(self@ =~= before);
                    break;
                },
                Some(thread) => {
                    let ghost taken = self@;
                    let was = self.wake_thread(cpu, thread);
                    proof {
                        fuel = (fuel - 1) as nat;
                        crate::exec::ports::lemma_woken_frame(taken, cpu, thread);
                    }
                    match was {
                        Residence::Gone => {},
                        _ => {
                            n += 1;
                        },
                    }
                },
            }
        }
        n as usize
    }
}

} // verus!
