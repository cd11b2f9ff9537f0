//! A CPU other than the boot CPU, running threads off its own half of the
//! executive: what it is handed, what a pass of its loop does, and what the
//! boot CPU can see of it.
use vstd::prelude::*;
use crate::config::{MAX_CPUS, MAX_THREADS};
use crate::exec::paging::lemma_acted_on_switches;
use crate::exec::{seat, CpuView, ExecView, Executive, BOOT_CPU};
use crate::loader::joined;
use crate::occupancy::{note_visit_from, visited_by};
use crate::sched::{SchedView, Switch};
use crate::slots;
use crate::thread::Thread;

verus! {

/// The claim of a boot in which every other CPU dispatched out of its own half
/// of the executive.
pub const CLAIM_SECOND_CPU_SCHEDULED: &'static str = "exec.second-cpu-scheduled";

/// Threads the boot CPU built for other CPUs to run, one place per CPU.
pub struct Handoff {
    threads: Vec<Option<Thread>>,
}

impl View for Handoff {
    type V = Seq<Option<Thread>>;

    closed spec fn view(&self) -> Seq<Option<Thread>> {
        self.threads@
    }
}

impl Handoff {
    /// There is a place for each CPU.
    pub open spec fn wf(&self) -> bool {
        self@.len() == MAX_CPUS
    }

    pub fn new() -> (h: Handoff)
        ensures
            h.wf(),
            h@ == slots::empty::<Thread>(MAX_CPUS as nat),
    {
        Handoff { threads: slots::empty_slots(MAX_CPUS) }
    }

    /// Leaves `thread` for the CPU at `index`. `false` for a number that is no
    /// CPU's.
    pub fn give(&mut self, index: u32, thread: Thread) -> (b: bool)
        requires
            old(self).wf(),
        ensures
            final(self).wf(),
            b == (index < MAX_CPUS),
            final(self)@ == (if b {
                old(self)@.update(index as int, Some(thread))
            } else {
                old(self)@
            }),
    {
        if index as usize >= MAX_CPUS {
            return false;
        }
        self.threads[index as usize] = Some(thread);
        true
    }

    /// Takes whatever was left for the CPU at `index`.
    pub fn take(&mut self, index: u32) -> (r: Option<Thread>)
        requires
            old(self).wf(),
        ensures
            final(self).wf(),
            if index < MAX_CPUS {
                &&& r == old(self)@[index as int]
                &&& final(self)@ == old(self)@.update(index as int, None)
            } else {
                r is None && final(self)@ == old(self)@
            },
    {
        if index as usize >= MAX_CPUS {
            return None;
        }
        let r: Option<Thread> = self.threads[index as usize];
        self.threads[index as usize] = None;
        r
    }
}

impl Default for Handoff {
    fn default() -> (h: Handoff)
        ensures
            h.wf(),
            h@ == slots::empty::<Thread>(MAX_CPUS as nat),
    {
        Handoff::new()
    }
}

/// What each CPU has published: which half of the executive it dispatches out
/// of, and how many switches that half has made.
pub struct Published {
    halves: Vec<Option<usize>>,
    switches: Vec<u64>,
}

/// What a [`Published`] holds.
#[verifier::ext_equal]
pub struct PublishedView {
    pub halves: Seq<Option<usize>>,
    pub switches: Seq<u64>,
}

impl View for Published {
    type V = PublishedView;

    closed spec fn view(&self) -> PublishedView {
        PublishedView { halves: self.halves@, switches: self.switches@ }
    }
}

impl Published {
    pub open spec fn wf(&self) -> bool {
        self@.halves.len() == MAX_CPUS && self@.switches.len() == MAX_CPUS
    }

    pub fn new() -> (p: Published)
        ensures
            p.wf(),
            p@ == (PublishedView {
                halves: slots::empty::<usize>(MAX_CPUS as nat),
                switches: Seq::new(MAX_CPUS as nat, |i: int| 0u64),
            }),
    {
        let p = Published {
            halves: slots::empty_slots(MAX_CPUS),
            switches: vec![0u64; MAX_CPUS],
        };
        assert(p@.switches =~= Seq::new(MAX_CPUS as nat, |i: int| 0u64));
        p
    }
}

/// Ends the thread running on `cpu` and says what to switch to. `None` when
/// that CPU has published no half, so no scheduler dispatched the caller.
pub fn exit_here(exec: &mut Executive, published: &Published, cpu: u32) -> (r: Option<Switch>)
    requires
        old(exec).wf(),
        old(exec)@.can_switch(cpu),
        published.wf(),
    ensures
        final(exec).wf(),
        if cpu < MAX_CPUS && published@.halves[cpu as int] is Some {
            let s = old(exec)@.sched(cpu);
            &&& r == Some(s.park_switch(crate::thread::ThreadState::Exited))
            &&& final(exec)@ == old(exec)@.with_sched(
                cpu,
                s.parked(crate::thread::ThreadState::Exited),
            )
        } else {
            r is None && final(exec)@ == old(exec)@
        },
{
    if cpu as usize >= MAX_CPUS {
        return None;
    }
    if published.halves[cpu as usize].is_none() {
        return None;
    }
    Some(exec.scheduler_at(cpu).exit_current())
}

/// What is published once `index` has taken its scheduler from `half`.
pub open spec fn dispatching(p: PublishedView, index: u32, half: int) -> PublishedView {
    if index < MAX_CPUS {
        PublishedView { halves: p.halves.update(index as int, Some(half as usize)), ..p }
    } else {
        p
    }
}

fn publish_half(published: &mut Published, index: u32, half: usize)
    requires
        old(published).wf(),
    ensures
        final(published).wf(),
        final(published)@ == dispatching(old(published)@, index, half as int),
{
    if (index as usize) < MAX_CPUS {
        published.halves[index as usize] = Some(half);
    }
}

/// A CPU joins: it is counted among those that reached the executive, takes
/// its own half at `quantum` and nothing else, and publishes which half that
/// is.
pub fn join(exec: &mut Executive, published: &mut Published, index: u32, quantum: u32)
    requires
        old(exec).wf(),
        old(published).wf(),
    ensures
        final(exec).wf(),
        final(published).wf(),
        final(exec)@ == (ExecView {
            occupancy: visited_by(old(exec)@.occupancy, index),
            ..old(exec)@.with_cpu(index, old(exec)@.cpus[seat(index)].renewed(quantum, 0))
        }),
        final(published)@ == dispatching(old(published)@, index, seat(index)),
{
    let ghost v = exec@;
    note_visit_from(&mut exec.occupancy, index);
    assert(exec@ =~= ExecView { occupancy: exec.occupancy@, ..v });
    exec.adopt_cpu(index, quantum, 0);
    publish_half(published, index, exec.half_of(index));
}

/// The scheduler of a CPU after the thread left for it, if any, has joined the
/// queue, if there was room.
pub open spec fn handed(v: SchedView, thread: Option<Thread>, correlation: u64) -> SchedView {
    match thread {
        Some(t) => if v.vacancy() == MAX_THREADS || v.ready.len() == MAX_THREADS {
            v
        } else {
            joined(v, t, correlation)
        },
        None => v,
    }
}

/// One pass of a CPU's loop: what was left for it, then what other CPUs asked
/// to have woken, and only then what its queue says is next. `None` when there
/// is nothing to run. A pass that dispatches publishes the half it dispatched
/// out of.
pub fn run_this_cpu(
    exec: &mut Executive,
    handoff: &mut Handoff,
    published: &mut Published,
    index: u32,
    correlation: u64,
) -> (r: Option<Switch>)
    requires
        old(exec).wf(),
        old(exec)@.can_switch(index),
        old(handoff).wf(),
        old(published).wf(),
    ensures
        final(exec).wf(),
        final(handoff).wf(),
        final(published).wf(),
        final(published)@ == (if r is Some {
            dispatching(old(published)@, index, seat(index))
        } else {
            old(published)@
        }),
        final(handoff)@ == (if index < MAX_CPUS {
            old(handoff)@.update(index as int, None)
        } else {
            old(handoff)@
        }),
        ({
            let left = if index < MAX_CPUS {
                old(handoff)@[index as int]
            } else {
                None
            };
            let v = old(exec)@;
            let w = v.with_sched(index, handed(v.sched(index), left, correlation)).drained(index);
            let s = w.sched(index);
            &&& final(exec)@ == w.with_sched(index, s.ran())
            &&& r == match s.next() {
                Some(first) => Some(s.switch(Some(first))),
                None => None,
            }
        }),
{
    let ghost v = exec@;
    proof {
        slots::lemma_first(v.sched(index).threads, slots::free::<Thread>());
        assert(v.with_sched(index, v.sched(index)) =~= v);
    }
    let left: Option<Thread> = handoff.take(index);
    if let Some(thread) = left {
        let _ = exec.add_thread(index, thread, correlation);
    }
    let ghost w = exec@;
    assert(w =~= v.with_sched(index, handed(v.sched(index), left, correlation)));
    exec.drain_wakeups(index);
    proof {
        lemma_acted_on_switches(
            w.sched(index),
            index,
            w.machine.posted,
            w.machine.posted.len() as int,
        );
    }
    let r = exec.scheduler_at(index).run();
    if r.is_some() {
        publish_half(published, index, exec.half_of(index));
    }
    r
}

/// Publishes how many switches the half of `index` has made.
pub fn publish_switches(exec: &Executive, published: &mut Published, index: u32)
    requires
        exec.wf(),
        old(published).wf(),
    ensures
        final(published).wf(),
        final(published)@ == (if index < MAX_CPUS {
            PublishedView {
                switches: old(published)@.switches.update(
                    index as int,
                    exec@.sched(index).switches,
                ),
                ..old(published)@
            }
        } else {
            old(published)@
        }),
{
    if (index as usize) < MAX_CPUS {
        published.switches[index as usize] = exec.switch_count(index);
    }
}

/// What the boot CPU can see of the other CPUs.
#[derive(Clone, Copy, PartialEq, Eq, Debug, Structural)]
pub struct ExecutiveRun {
    /// CPUs other than the boot CPU that joined.
    pub cpus: usize,
    /// Of those, how many dispatch out of the half kept for their index.
    pub matched: usize,
    /// Switches they have made between them.
    pub switches: u64,
}

/// How many of the first `n` CPUs, the boot CPU apart, joined.
pub open spec fn joined_count(p: PublishedView, n: int) -> nat
    decreases n,
{
    if n <= 0 {
        0
    } else {
        joined_count(p, n - 1) + if n - 1 != BOOT_CPU && p.halves[n - 1] is Some {
            1nat
        } else {
            0nat
        }
    }
}

/// How many of them dispatch out of the half kept for their index.
pub open spec fn matched_count(p: PublishedView, n: int) -> nat
    decreases n,
{
    if n <= 0 {
        0
    } else {
        matched_count(p, n - 1) + if n - 1 != BOOT_CPU && p.halves[n - 1] == Some(
            (n - 1) as usize,
        ) {
            1nat
        } else {
            0nat
        }
    }
}

/// How many switches they have made.
pub open spec fn switch_total(p: PublishedView, n: int) -> nat
    decreases n,
{
    if n <= 0 {
        0
    } else {
        switch_total(p, n - 1) + if n - 1 != BOOT_CPU && p.halves[n - 1] is Some {
            p.switches[n - 1] as nat
        } else {
            0nat
        }
    }
}

proof fn lemma_switch_total(p: PublishedView, a: int, b: int)
    requires
        0 <= a <= b,
    ensures
        switch_total(p, a) <= switch_total(p, b),
    decreases b,
{
    if a < b {
        lemma_switch_total(p, a, b - 1);
    }
}

/// Asks which half each CPU that joined dispatches out of, and compares it with
/// the one kept for that CPU.
pub fn dispatched_from_executive(published: &Published) -> (run: ExecutiveRun)
    requires
        published.wf(),
        switch_total(published@, MAX_CPUS as int) <= u64::MAX,
    ensures
        run.cpus == joined_count(published@, MAX_CPUS as int),
        run.matched == matched_count(published@, MAX_CPUS as int),
        run.switches == switch_total(published@, MAX_CPUS as int),
        run.matched <= run.cpus,
{
    let mut run = ExecutiveRun { cpus: 0, matched: 0, switches: 0 };
    let mut index: u32 = 0;
    while (index as usize) < MAX_CPUS
        invariant
            published.wf(),
            index <= MAX_CPUS,
            switch_total(published@, MAX_CPUS as int) <= u64::MAX,
            run.cpus == joined_count(published@, index as int),
            run.matched == matched_count(published@, index as int),
            run.switches == switch_total(published@, index as int),
            run.matched <= run.cpus,
            run.cpus <= index,
        decreases MAX_CPUS - index,
    {
        proof {
            lemma_switch_total(published@, index + 1, MAX_CPUS as int);
        }
        if index != BOOT_CPU {
            if let Some(half) = published.halves[index as usize] {
                let matched: usize = if half == index as usize {
                    run.matched + 1
                } else {
                    run.matched
                };
                run =
                ExecutiveRun {
                    cpus: run.cpus + 1,
                    matched,
                    switches: run.switches + published.switches[index as usize],
                };
            }
        }
        index += 1;
    }
    run
}

/// The claim this boot has earned, if it has: every CPU that joined, and not
/// merely one, dispatches out of its own half.
pub fn report_executive_run(run: ExecutiveRun) -> (claim: Option<&'static str>)
    ensures
        claim == if run.cpus > 0 && run.matched == run.cpus {
            Some(CLAIM_SECOND_CPU_SCHEDULED)
        } else {
            None
        },
{
    if run.cpus > 0 && run.matched == run.cpus {
        Some(CLAIM_SECOND_CPU_SCHEDULED)
    } else {
        None
    }
}

/// A CPU that joins takes its own half and leaves every other CPU's, and the
/// machine's tables, alone.
pub proof fn law_joining_disturbs_nobody(v: ExecView, index: u32, quantum: u32, other: int)
    requires
        v.cpus.len() == MAX_CPUS,
        0 <= other < MAX_CPUS,
        other != seat(index),
    ensures
        v.with_cpu(index, v.cpus[seat(index)].renewed(quantum, 0)).cpus[other] == v.cpus[other],
        v.with_cpu(index, v.cpus[seat(index)].renewed(quantum, 0)).machine == v.machine,
{
}

/// A CPU publishes the half it dispatches out of, its own place and no other.
pub proof fn law_a_cpu_publishes_its_own_half(p: PublishedView, index: u32, half: int, other: int)
    requires
        p.halves.len() == MAX_CPUS,
        0 <= other < MAX_CPUS,
        other != index,
        0 <= half <= usize::MAX,
    ensures
        index < MAX_CPUS ==> dispatching(p, index, half).halves[index as int] == Some(
            half as usize,
        ),
        dispatching(p, index, half).halves[other] == p.halves[other],
        dispatching(p, index, half).switches == p.switches,
        index >= MAX_CPUS ==> dispatching(p, index, half) == p,
{
}

/// A thread left for a CPU joins its queue at the back, ready and as it was left,
/// where there is room; with nothing left, nothing changes.
pub proof fn law_a_thread_left_for_a_cpu_joins_its_queue(
    v: SchedView,
    thread: Thread,
    correlation: u64,
    k: int,
)
    requires
        v.wf(),
        0 <= k < MAX_THREADS,
    ensures
        handed(v, None, correlation) == v,
        v.vacancy() == MAX_THREADS || v.ready.len() == MAX_THREADS ==> handed(
            v,
            Some(thread),
            correlation,
        ) == v,
        v.vacancy() < MAX_THREADS && v.ready.len() < MAX_THREADS ==> {
            let w = handed(v, Some(thread), correlation);
            let at = v.vacancy();
            &&& v.threads[at] is None
            &&& w.threads[at] matches Some(t)
            &&& t.id == thread.id && t.state == crate::thread::ThreadState::Ready
            &&& t.correlation == correlation && t.priority == thread.priority
            &&& t.process == thread.process && t.kernel_stack_base == thread.kernel_stack_base
            &&& t.kernel_stack_top == thread.kernel_stack_top && t.space_root == thread.space_root
            &&& w.ready == v.ready.push(at as usize)
            &&& k != at ==> w.threads[k] == v.threads[k]
            &&& w.current == v.current && w.switches == v.switches
        },
{
    slots::lemma_first(v.threads, slots::free::<Thread>());
}

/// A CPU is counted once it has published, as matched if what it published is its
/// own half, and with its switches; the boot CPU is not counted.
pub proof fn law_published_cpus_are_counted(p: PublishedView, n: int)
    requires
        0 < n <= MAX_CPUS,
        p.halves.len() == MAX_CPUS,
        p.switches.len() == MAX_CPUS,
    ensures
        ({
            let i = n - 1;
            let counts = i != BOOT_CPU && p.halves[i] is Some;
            &&& counts ==> joined_count(p, n) == joined_count(p, i) + 1 && switch_total(p, n)
                == switch_total(p, i) + p.switches[i]
            &&& !counts ==> joined_count(p, n) == joined_count(p, i) && switch_total(p, n)
                == switch_total(p, i) && matched_count(p, n) == matched_count(p, i)
            &&& counts && p.halves[i] == Some(i as usize) ==> matched_count(p, n) == matched_count(
                p,
                i,
            ) + 1
            &&& counts && p.halves[i] != Some(i as usize) ==> matched_count(p, n) == matched_count(
                p,
                i,
            )
        }),
        joined_count(p, 0) == 0,
        matched_count(p, 0) == 0,
        switch_total(p, 0) == 0,
{
}

/// A CPU that joins starts with a scheduler of its own that has nobody in it, and
/// numbers its calls from the start.
pub proof fn law_a_joining_cpu_starts_empty(
    c: crate::exec::CpuView,
    quantum: u32,
    limit: u64,
    k: int,
)
    requires
        0 <= k < MAX_THREADS,
    ensures
        ({
            let n = c.renewed(quantum, limit);
            &&& n.wf()
            &&& n.sched.threads[k] is None && n.sched.ready.len() == 0
            &&& n.sched.current is None && n.sched.switches == 0 && n.sched.ticks == 0
            &&& n.sched.cause == c.sched.cause && n.sched.tick_limit == limit
            &&& quantum > 0 ==> n.sched.quantum == quantum
            &&& n.next_txn == 1 && n.sync_depth[k] == 0 && n.loans[k] is None
        }),
{
}

} // verus!
