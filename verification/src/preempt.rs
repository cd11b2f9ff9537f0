//! Whether a timer tick may take the running thread off its CPU right now, and
//! the check that a CPU can be preempted at all.
//!
//! A hold on the machine lock and an open read section belong to the CPU and
//! not to the thread, so a switch while either is open would hand it to whoever
//! runs next. Such a tick is deferred, and counted.
use vstd::prelude::*;
use crate::config::MAX_CPUS;
use crate::machine_lock::{counted, held_here, MachineLock};

verus! {

/// Workers the preemption check hands to one CPU. One would prove nothing.
pub const WORKERS: usize = 2;

/// Spins the boot CPU allows the workers before it gives up on them.
pub const WAIT_SPINS: u64 = 2_000_000;

/// The claim of a boot in which the workers saw each other running.
pub const CLAIM_SECONDARY_PREEMPTED: &'static str = "smp.secondary-preempted";

/// The counters, and the state of the preemption check.
pub struct Preemption {
    taken: u64,
    deferred: u64,
    spun: Vec<u64>,
    saw_peer: Vec<bool>,
    given_up: bool,
    done: u64,
}

/// What a [`Preemption`] holds.
#[verifier::ext_equal]
pub struct PreemptionView {
    /// Ticks that preempted.
    pub taken: u64,
    /// Ticks that could not.
    pub deferred: u64,
    /// How often each worker began.
    pub spun: Seq<u64>,
    /// Whether each worker saw the other one running.
    pub saw_peer: Seq<bool>,
    /// Whether the workers were told to stop waiting.
    pub given_up: bool,
    /// Workers that have left.
    pub done: u64,
}

impl PreemptionView {
    pub open spec fn fresh() -> PreemptionView {
        PreemptionView {
            taken: 0,
            deferred: 0,
            spun: seq![0u64, 0u64],
            saw_peer: seq![false, false],
            given_up: false,
            done: 0,
        }
    }

    pub open spec fn wf(self) -> bool {
        self.spun.len() == WORKERS && self.saw_peer.len() == WORKERS
    }

    /// Whether both workers ran and each saw the other still going.
    pub open spec fn both_seen(self) -> bool {
        forall|i: int| 0 <= i < WORKERS ==> self.spun[i] != 0 && #[trigger] self.saw_peer[i]
    }
}

impl View for Preemption {
    type V = PreemptionView;

    closed spec fn view(&self) -> PreemptionView {
        PreemptionView {
            taken: self.taken,
            deferred: self.deferred,
            spun: self.spun@,
            saw_peer: self.saw_peer@,
            given_up: self.given_up,
            done: self.done,
        }
    }
}

impl Preemption {
    pub open spec fn wf(&self) -> bool {
        self@.wf()
    }

    pub fn new() -> (p: Preemption)
        ensures
            p.wf(),
            p@ == PreemptionView::fresh(),
    {
        let p = Preemption {
            taken: 0,
            deferred: 0,
            spun: vec![0u64; WORKERS],
            saw_peer: vec![false; WORKERS],
            given_up: false,
            done: 0,
        };
        assert(p@ =~= PreemptionView::fresh());
        p
    }
}

fn count_one(n: u64) -> (m: u64)
    ensures
        m == counted(n),
{
    if n == u64::MAX {
        0
    } else {
        n + 1
    }
}

/// Whether a tick may switch away from the thread running on `cpu`, which is
/// inside a read section or is not.
pub fn allowed(lock: &MachineLock, cpu: u32, reading: bool) -> (b: bool)
    requires
        lock.wf(),
    ensures
        b == (!(cpu < MAX_CPUS && lock@.held(cpu)) && !reading),
{
    !held_here(lock, cpu) && !reading
}

/// Whether the tick on `cpu` is to switch. Counted either way.
pub fn on_tick(p: &mut Preemption, lock: &MachineLock, cpu: u32, reading: bool) -> (switch: bool)
    requires
        old(p).wf(),
        lock.wf(),
    ensures
        final(p).wf(),
        switch == (!(cpu < MAX_CPUS && lock@.held(cpu)) && !reading),
        final(p)@ == (if switch {
            PreemptionView { taken: counted(old(p)@.taken), ..old(p)@ }
        } else {
            PreemptionView { deferred: counted(old(p)@.deferred), ..old(p)@ }
        }),
{
    if !allowed(lock, cpu, reading) {
        p.deferred = count_one(p.deferred);
        return false;
    }
    p.taken = count_one(p.taken);
    true
}

/// Ticks that preempted the running thread.
pub fn taken(p: &Preemption) -> (n: u64)
    ensures
        n == p@.taken,
{
    p.taken
}

/// Ticks that could not.
pub fn deferred(p: &Preemption) -> (n: u64)
    ensures
        n == p@.deferred,
{
    p.deferred
}

/// A worker begins.
pub fn spin_worker(p: &mut Preemption, index: usize)
    requires
        old(p).wf(),
    ensures
        final(p).wf(),
        final(p)@ == (if index < WORKERS {
            PreemptionView {
                spun: old(p)@.spun.update(index as int, counted(old(p)@.spun[index as int])),
                ..old(p)@
            }
        } else {
            old(p)@
        }),
{
    if index < WORKERS {
        p.spun[index] = count_one(p.spun[index]);
    }
}

/// Whether a worker that has begun is to leave: it saw the other one running,
/// or was told to stop waiting. A number that is no worker's leaves at once.
pub fn spin_poll(p: &mut Preemption, index: usize) -> (leave: bool)
    requires
        old(p).wf(),
    ensures
        final(p).wf(),
        ({
            let v = old(p)@;
            let seen = index < WORKERS && v.spun[1 - index] != 0;
            &&& leave == (index >= WORKERS || seen || v.given_up)
            &&& final(p)@ == (if leave {
                PreemptionView {
                    saw_peer: if seen {
                        v.saw_peer.update(index as int, true)
                    } else {
                        v.saw_peer
                    },
                    done: counted(v.done),
                    ..v
                }
            } else {
                v
            })
        }),
{
    if index < WORKERS {
        if p.spun[1 - index] != 0 {
            p.saw_peer[index] = true;
        } else if !p.given_up {
            return false;
        }
    }
    p.done = count_one(p.done);
    true
}

/// Tells both workers to stop waiting for each other.
pub fn give_up(p: &mut Preemption)
    ensures
        final(p)@ == (PreemptionView { given_up: true, ..old(p)@ }),
{
    p.given_up = true;
}

/// How many workers have left.
pub fn finished(p: &Preemption) -> (n: u64)
    ensures
        n == p@.done,
{
    p.done
}

/// Whether both workers ran and each saw the other still going.
pub fn interleaved(p: &Preemption) -> (b: bool)
    requires
        p.wf(),
    ensures
        b == p@.both_seen(),
{
    let b: bool = p.spun[0] != 0 && p.saw_peer[0] && p.spun[1] != 0 && p.saw_peer[1];
    proof {
        if b {
            assert forall|i: int| 0 <= i < WORKERS implies p@.spun[i] != 0 && #[trigger] p@.saw_peer[i] by {
                assert(i == 0 || i == 1);
            }
        } else if p@.both_seen() {
            assert(p@.saw_peer[0] && p@.saw_peer[1]);
        }
    }
    b
}

/// How many of the workers saw the other one.
pub fn observers(p: &Preemption) -> (n: usize)
    requires
        p.wf(),
    ensures
        n == (if p@.saw_peer[0] {
            1int
        } else {
            0
        }) + (if p@.saw_peer[1] {
            1int
        } else {
            0
        }),
{
    let first: usize = if p.saw_peer[0] {
        1
    } else {
        0
    };
    let second: usize = if p.saw_peer[1] {
        1
    } else {
        0
    };
    first + second
}

/// The claim this boot has earned, if it has. Withheld where the workers were
/// handed to nobody.
pub fn report_secondary_preempted(p: &Preemption, handed: bool) -> (claim: Option<&'static str>)
    requires
        p.wf(),
    ensures
        claim == if handed && p@.both_seen() {
            Some(CLAIM_SECONDARY_PREEMPTED)
        } else {
            None
        },
{
    if handed && interleaved(p) {
        Some(CLAIM_SECONDARY_PREEMPTED)
    } else {
        None
    }
}

/// Two workers interleaved when both ran and each saw the other, and nothing has
/// happened before anything has.
pub proof fn law_interleaving_takes_both(v: PreemptionView)
    requires
        v.wf(),
    ensures
        v.both_seen() <==> v.spun[0] != 0 && v.spun[1] != 0 && v.saw_peer[0] && v.saw_peer[1],
        ({
            let f = PreemptionView::fresh();
            &&& f.wf()
            &&& f.taken == 0 && f.deferred == 0 && f.done == 0 && !f.given_up
            &&& f.spun[0] == 0 && f.spun[1] == 0 && !f.saw_peer[0] && !f.saw_peer[1]
        }),
{
    if v.both_seen() {
        assert(v.saw_peer[0] && v.saw_peer[1]);
    }
}

} // verus!
