//! The per-CPU preemptive round-robin scheduler: a ready ring of thread-table
//! indices and the bookkeeping of which thread runs.
//!
//! The scheduler decides; it does not touch registers. Every operation that
//! changes the running thread returns the [`Switch`] the caller must perform,
//! with the bookkeeping already updated so the state is consistent from the
//! resumed side.
use vstd::prelude::*;
use crate::config::MAX_THREADS;
use crate::error::KError;
use crate::slots;
use crate::thread::{no_trace, trace_of, Thread, ThreadId, ThreadState, TraceContext};

verus! {

/// A per-CPU ready queue: a fixed-capacity ring of thread-table indices in
/// round-robin order.
pub struct RunQueue {
    slots: Vec<usize>,
    head: usize,
    len: usize,
}

impl View for RunQueue {
    type V = Seq<usize>;

    /// The queued indices, front first.
    closed spec fn view(&self) -> Seq<usize> {
        Seq::new(
            self.len as nat,
            |i: int| self.slots@[slots::ring(self.head as int, i, MAX_THREADS as int)],
        )
    }
}

/// The predicate of an index other than `idx`.
pub open spec fn other_than(idx: usize) -> spec_fn(usize) -> bool {
    |v: usize| v != idx
}

/// `q` without the entries equal to `idx`, the order of the rest kept.
pub open spec fn without(q: Seq<usize>, idx: usize) -> Seq<usize> {
    q.filter(other_than(idx))
}

impl RunQueue {
    /// The ring's invariant.
    pub closed spec fn wf(&self) -> bool {
        &&& self.slots@.len() == MAX_THREADS
        &&& self.head < MAX_THREADS
        &&& self.len <= MAX_THREADS
    }

    pub fn new() -> (q: RunQueue)
        ensures
            q.wf(),
            q@ == Seq::<usize>::empty(),
    {
        let q = RunQueue { slots: vec![0usize; MAX_THREADS], head: 0, len: 0 };
        assert(q@ =~= Seq::<usize>::empty());
        q
    }

    /// Appends `idx` to the back of the queue; `false` if the queue is full.
    pub fn push(&mut self, idx: usize) -> (pushed: bool)
        requires
            old(self).wf(),
        ensures
            final(self).wf(),
            pushed == (old(self)@.len() < MAX_THREADS),
            final(self)@ == pushed_back(old(self)@, idx),
    {
        if self.len >= MAX_THREADS {
            return false;
        }
        let tail: usize = slots::ring_index(self.head, self.len, MAX_THREADS);
        self.slots[tail] = idx;
        self.len += 1;
        assert(self@ =~= old(self)@.push(idx));
        true
    }

    /// Removes and returns the front index, or `None` if empty.
    pub fn pop(&mut self) -> (r: Option<usize>)
        requires
            old(self).wf(),
        ensures
            final(self).wf(),
            match r {
                Some(idx) => {
                    &&& old(self)@.len() > 0
                    &&& idx == old(self)@[0]
                    &&& final(self)@ == old(self)@.drop_first()
                },
                None => old(self)@.len() == 0 && final(self)@ == old(self)@,
            },
    {
        if self.len == 0 {
            return None;
        }
        let idx: usize = self.slots[self.head];
        self.head = slots::ring_index(self.head, 1, MAX_THREADS);
        self.len -= 1;
        assert(self@ =~= old(self)@.drop_first());
        Some(idx)
    }

    /// Removes every occurrence of `idx`, preserving the order of the rest;
    /// returns whether any were removed. Used when a thread is reaped so its
    /// freed table index can never be popped and dispatched.
    pub fn remove(&mut self, idx: usize) -> (removed: bool)
        requires
            old(self).wf(),
        ensures
            final(self).wf(),
            final(self)@ == without(old(self)@, idx),
            removed == old(self)@.contains(idx),
    {
        let mut kept: Vec<usize> = Vec::new();
        let mut removed: bool = false;
        let mut i: usize = 0;
        let ghost q = self@;
        while i < self.len
            invariant
                self.wf(),
                q == self@,
                i <= self.len,
                kept@.len() <= i,
                kept@ == without(q.take(i as int), idx),
                removed == q.take(i as int).contains(idx),
            decreases self.len - i,
        {
            let v: usize = self.slots[slots::ring_index(self.head, i, MAX_THREADS)];
            proof {
                let p = other_than(idx);
                assert(v == q[i as int]);
                assert(q.take(i + 1) =~= q.take(i as int).push(v));
                q.take(i as int).lemma_filter_push(v, p);
                if q.take(i as int).contains(idx) {
                    let t = q.take(i as int);
                    let k = choose|k: int| 0 <= k < t.len() && t[k] == idx;
                    assert(q.take(i + 1)[k] == idx);
                }
                if v == idx {
                    assert(q.take(i + 1)[i as int] == idx);
                }
                if q.take(i + 1).contains(idx) && v != idx {
                    let t = q.take(i + 1);
                    let k = choose|k: int| 0 <= k < t.len() && t[k] == idx;
                    assert(q.take(i as int)[k] == idx);
                }
            }
            if v == idx {
                removed = true;
            } else {
                kept.push(v);
            }
            i += 1;
        }
        assert(q.take(i as int) =~= q);
        let n: usize = kept.len();
        let mut j: usize = 0;
        while j < n
            invariant
                j <= n,
                n == kept@.len(),
                n <= MAX_THREADS,
                self.slots@.len() == MAX_THREADS,
                forall|k: int| 0 <= k < j ==> self.slots@[k] == kept@[k],
            decreases n - j,
        {
            self.slots[j] = kept[j];
            j += 1;
        }
        self.head = 0;
        self.len = n;
        assert(self@ =~= kept@);
        removed
    }

    pub fn len(&self) -> (n: usize)
        requires
            self.wf(),
        ensures
            n == self@.len(),
            n <= MAX_THREADS,
    {
        self.len
    }

    pub fn is_empty(&self) -> (b: bool)
        requires
            self.wf(),
        ensures
            b == (self@.len() == 0),
    {
        self.len == 0
    }
}

impl Default for RunQueue {
    fn default() -> (q: RunQueue)
        ensures
            q.wf(),
            q@ == Seq::<usize>::empty(),
    {
        RunQueue::new()
    }
}

/// `q` with `idx` at the back, or `q` itself when it is full.
pub open spec fn pushed_back(q: Seq<usize>, idx: usize) -> Seq<usize> {
    if q.len() < MAX_THREADS {
        q.push(idx)
    } else {
        q
    }
}

/// What the processor must load before a thread resumes.
#[derive(Clone, Copy, PartialEq, Eq, Debug, Structural)]
pub struct Resume {
    /// Top of the resuming thread's kernel stack.
    pub kernel_stack_top: u64,
    /// Its page-table root, when it has an address space of its own.
    pub space_root: Option<u64>,
}

/// A context switch the caller must perform: save into `from`, load from `to`
/// (`None` is the boot context in either place), publishing `trace` as the
/// identity events are stamped with.
#[derive(Clone, Copy, PartialEq, Eq, Debug, Structural)]
pub struct Switch {
    pub from: Option<usize>,
    pub to: Option<usize>,
    pub resume: Option<Resume>,
    pub trace: TraceContext,
}

/// A per-CPU preemptive round-robin scheduler over a fixed thread table.
pub struct Scheduler {
    threads: Vec<Option<Thread>>,
    ready: RunQueue,
    /// Table index of the running thread, or `None` while the boot context
    /// (the caller of [`run`](Scheduler::run)) is current.
    current: Option<usize>,
    /// Ticks remaining in the current thread's quantum.
    quantum: u32,
    quantum_reset: u32,
    ticks: u64,
    /// Stop after this many ticks (0 = run indefinitely) by switching back to
    /// the boot context.
    tick_limit: u64,
    switches: u64,
    /// The causal id that what happens on this CPU is attributed to.
    cause: u64,
}

/// What a [`Scheduler`] holds.
#[verifier::ext_equal]
pub struct SchedView {
    pub threads: Seq<Option<Thread>>,
    pub ready: Seq<usize>,
    pub current: Option<usize>,
    pub quantum: u32,
    pub quantum_reset: u32,
    pub ticks: u64,
    pub tick_limit: u64,
    pub switches: u64,
    pub cause: u64,
}

impl SchedView {
    /// The scheduler before any thread is added.
    pub open spec fn fresh(quantum: u32, tick_limit: u64) -> SchedView {
        let q: u32 = if quantum == 0 {
            1
        } else {
            quantum
        };
        SchedView {
            threads: slots::empty(MAX_THREADS as nat),
            ready: Seq::empty(),
            current: None,
            quantum: q,
            quantum_reset: q,
            ticks: 0,
            tick_limit,
            switches: 0,
            cause: 0,
        }
    }

    /// The scheduler's invariant: the table has its capacity, and the running
    /// thread is in it.
    pub open spec fn wf(self) -> bool {
        &&& self.threads.len() == MAX_THREADS
        &&& self.ready.len() <= MAX_THREADS
        &&& self.quantum_reset >= 1
        &&& self.current matches Some(i) ==> self.occupied(i)
    }

    /// Whether slot `i` holds a thread.
    pub open spec fn occupied(self, i: usize) -> bool {
        i < MAX_THREADS && self.threads[i as int] is Some
    }

    /// The thread in slot `i`, if there is one.
    pub open spec fn thread(self, i: usize) -> Option<Thread> {
        if i < MAX_THREADS {
            self.threads[i as int]
        } else {
            None
        }
    }

    /// Whether slot `i` holds a thread that may be dispatched.
    pub open spec fn runnable(self, i: usize) -> bool {
        self.occupied(i) && self.threads[i as int]->0.state != ThreadState::Exited
    }

    /// The predicate of a slot that may be dispatched.
    pub open spec fn dispatchable(self) -> spec_fn(usize) -> bool {
        |i: usize| self.runnable(i)
    }

    /// The first free slot, or the capacity.
    pub open spec fn vacancy(self) -> int {
        slots::first(self.threads, slots::free::<Thread>())
    }

    /// The slot of the live thread called `id`, or the capacity.
    pub open spec fn slot_of(self, id: ThreadId) -> int {
        slots::first(self.threads, live_as(id))
    }

    /// The slot of the thread called `id`, whether or not it has exited, or the
    /// capacity.
    pub open spec fn place_of(self, id: ThreadId) -> int {
        slots::first(self.threads, known_as(id))
    }

    /// Whether slot `i` holds a terminated thread.
    pub open spec fn exited(self, i: usize) -> bool {
        self.occupied(i) && self.threads[i as int]->0.state == ThreadState::Exited
    }

    /// With the thread in slot `i`, if any, put in state `state`. A terminated
    /// thread stays terminated.
    pub open spec fn with_state(self, i: usize, state: ThreadState) -> SchedView {
        match self.thread(i) {
            Some(t) => if t.state == ThreadState::Exited {
                self
            } else {
                SchedView {
                    threads: self.threads.update(i as int, Some(Thread { state, ..t })),
                    ..self
                }
            },
            None => self,
        }
    }

    /// With the running thread, if any, put in state `state`.
    pub open spec fn with_current(self, state: ThreadState) -> SchedView {
        match self.current {
            Some(i) => self.with_state(i, state),
            None => self,
        }
    }

    /// The place in the ready queue of the first thread that may be
    /// dispatched, or its length.
    pub open spec fn pick(self) -> int {
        slots::first(self.ready, self.dispatchable())
    }

    /// The slot dispatched next.
    pub open spec fn next(self) -> Option<usize> {
        if self.pick() < self.ready.len() {
            Some(self.ready[self.pick()])
        } else {
            None
        }
    }

    /// The scheduler after the dispatchable front and everything dead before
    /// it leave the ready queue.
    pub open spec fn popped(self) -> SchedView {
        SchedView {
            ready: if self.pick() < self.ready.len() {
                self.ready.skip(self.pick() + 1)
            } else {
                Seq::empty()
            },
            ..self
        }
    }

    /// The scheduler after switching to `next`, whose cause is the CPU's from
    /// then on.
    pub open spec fn switched(self, next: Option<usize>) -> SchedView {
        let marked = match next {
            Some(i) => self.with_state(i, ThreadState::Running),
            None => self,
        };
        SchedView {
            current: next,
            switches: (self.switches + 1) as u64,
            cause: self.switch(next).trace.correlation,
            ..marked
        }
    }

    /// The switch that takes the processor to `next`.
    pub open spec fn switch(self, next: Option<usize>) -> Switch {
        let to = match next {
            Some(i) => self.thread(i),
            None => None,
        };
        Switch {
            from: self.current,
            to: next,
            resume: match to {
                Some(t) => Some(
                    Resume { kernel_stack_top: t.kernel_stack_top, space_root: t.space_root },
                ),
                None => None,
            },
            trace: match to {
                Some(t) => trace_of(t),
                None => no_trace(),
            },
        }
    }

    /// The scheduler after the running thread leaves the processor in state
    /// `state` and the next ready one takes it.
    pub open spec fn parked(self, state: ThreadState) -> SchedView {
        let v = self.with_current(state);
        v.popped().switched(v.next())
    }

    /// The switch that [`parked`](Self::parked) owes.
    pub open spec fn park_switch(self, state: ThreadState) -> Switch {
        let v = self.with_current(state);
        v.switch(v.next())
    }

    /// The scheduler after the running thread is blocked and `target` runs, or
    /// the next ready thread where `target` cannot.
    pub open spec fn handed_to(self, target: usize) -> SchedView {
        if self.runnable(target) {
            self.with_current(ThreadState::Blocked).switched(Some(target))
        } else {
            self.parked(ThreadState::Blocked)
        }
    }

    /// The switch that [`handed_to`](Self::handed_to) owes.
    pub open spec fn handing_switch(self, target: usize) -> Switch {
        if self.runnable(target) {
            self.with_current(ThreadState::Blocked).switch(Some(target))
        } else {
            self.park_switch(ThreadState::Blocked)
        }
    }

    /// The scheduler after thread `i` is made ready and queued. A terminated
    /// thread is left alone.
    pub open spec fn unblocked(self, i: usize) -> SchedView {
        if self.exited(i) {
            self
        } else {
            let v = self.with_state(i, ThreadState::Ready);
            SchedView { ready: pushed_back(v.ready, i), ..v }
        }
    }

    /// The scheduler with the running thread, if any, back on the queue.
    pub open spec fn requeued(self) -> SchedView {
        match self.current {
            Some(i) => self.unblocked(i),
            None => self,
        }
    }

    /// The scheduler after a tick that does not switch: counted, and the
    /// quantum spent or renewed.
    pub open spec fn ticked(self) -> SchedView {
        SchedView {
            ticks: (self.ticks + 1) as u64,
            quantum: if self.at_limit() {
                self.quantum
            } else if self.quantum > 1 {
                (self.quantum - 1) as u32
            } else {
                self.quantum_reset
            },
            ..self
        }
    }

    /// Whether the next tick ends the run.
    pub open spec fn at_limit(self) -> bool {
        self.tick_limit != 0 && self.ticks + 1 >= self.tick_limit
    }

    /// Whether the next tick preempts the running thread for another.
    pub open spec fn preempts(self) -> bool {
        !self.at_limit() && self.quantum <= 1 && self.next() is Some
    }
}

/// The predicate of a slot holding a live thread called `id`.
pub open spec fn live_as(id: ThreadId) -> spec_fn(Option<Thread>) -> bool {
    |o: Option<Thread>| o matches Some(t) && t.id == id && t.state != ThreadState::Exited
}

/// The predicate of the thread called `id`, whether or not it has exited.
pub open spec fn known_as(id: ThreadId) -> spec_fn(Option<Thread>) -> bool {
    |o: Option<Thread>| o matches Some(t) && t.id == id
}

impl View for Scheduler {
    type V = SchedView;

    closed spec fn view(&self) -> SchedView {
        SchedView {
            threads: self.threads@,
            ready: self.ready@,
            current: self.current,
            quantum: self.quantum,
            quantum_reset: self.quantum_reset,
            ticks: self.ticks,
            tick_limit: self.tick_limit,
            switches: self.switches,
            cause: self.cause,
        }
    }
}

impl Scheduler {
    /// The ready ring's invariant.
    pub closed spec fn ring_wf(&self) -> bool {
        self.ready.wf()
    }

    /// The scheduler's invariant.
    pub open spec fn wf(&self) -> bool {
        self.ring_wf() && self@.wf()
    }

    /// A scheduler giving each thread a `quantum`-tick slice, optionally
    /// stopping after `tick_limit` ticks (0 = never).
    pub fn new(quantum: u32, tick_limit: u64) -> (s: Scheduler)
        ensures
            s.wf(),
            s@ == SchedView::fresh(quantum, tick_limit),
    {
        let q: u32 = if quantum < 1 {
            1
        } else {
            quantum
        };
        let s = Scheduler {
            threads: slots::empty_slots(MAX_THREADS),
            ready: RunQueue::new(),
            current: None,
            quantum: q,
            quantum_reset: q,
            ticks: 0,
            tick_limit,
            switches: 0,
            cause: 0,
        };
        assert(s@ =~= SchedView::fresh(quantum, tick_limit));
        s
    }

    /// Adds a `Ready` thread to the table and the back of the run queue,
    /// returning its table index, or [`KError::OutOfMemory`] if the fixed
    /// table or run queue is full. Spawning is a fan-out: the new thread gets
    /// the fresh causal id `correlation` rather than sharing its parent's.
    pub fn add_thread(&mut self, thread: Thread, correlation: u64) -> (r: Result<usize, KError>)
        requires
            old(self).wf(),
        ensures
            final(self).wf(),
            match r {
                Ok(idx) => {
                    let v = old(self)@;
                    &&& idx == v.vacancy()
                    &&& idx < MAX_THREADS
                    &&& v.ready.len() < MAX_THREADS
                    &&& final(self)@ == (SchedView {
                        threads: v.threads.update(
                            idx as int,
                            Some(Thread { state: ThreadState::Ready, correlation, ..thread }),
                        ),
                        ready: v.ready.push(idx),
                        ..v
                    })
                },
                Err(e) => {
                    &&& e == KError::OutOfMemory
                    &&& final(self)@ == old(self)@
                    &&& old(self)@.vacancy() == MAX_THREADS || old(self)@.ready.len() == MAX_THREADS
                },
            },
            final(self)@ == old(self)@.added(thread, correlation),
    {
        match slots::find_free(&self.threads) {
            None => Err(KError::OutOfMemory),
            Some(idx) => {
                let mut t: Thread = thread;
                t.state = ThreadState::Ready;
                t.correlation = correlation;
                self.threads[idx] = Some(t);
                if !self.ready.push(idx) {
                    self.threads[idx] = None;
                    assert(self@ =~= old(self)@);
                    return Err(KError::OutOfMemory);
                }
                Ok(idx)
            },
        }
    }

    /// Starts scheduling: switches from the boot context to the first ready
    /// thread. `None` when nothing is ready.
    pub fn run(&mut self) -> (r: Option<Switch>)
        requires
            old(self).wf(),
            old(self)@.switches < u64::MAX,
        ensures
            final(self).wf(),
            final(self)@ == old(self)@.ran(),
            r == match old(self)@.next() {
                Some(first) => Some(old(self)@.switch(Some(first))),
                None => None,
            },
            r matches Some(s) ==> s.to == final(self)@.current && (s.to matches Some(i) ==> (
            final(self)@.threads[i as int] matches Some(t) && s.resume == Some(
                Resume { kernel_stack_top: t.kernel_stack_top, space_root: t.space_root },
            ))),
    {
        match self.pop_ready() {
            None => None,
            Some(first) => {
                self.quantum = self.quantum_reset;
                Some(self.switch_to(Some(first)))
            },
        }
    }

    /// Blocks the current thread and switches to the next ready thread (or the
    /// boot context if none). The current thread is not requeued: it resumes
    /// only when [`unblock`](Self::unblock)ed and later scheduled, or when a
    /// [`handoff_to`](Self::handoff_to) targets it.
    pub fn block_current(&mut self) -> (s: Switch)
        requires
            old(self).wf(),
            old(self)@.switches < u64::MAX,
        ensures
            final(self).wf(),
            final(self)@ == old(self)@.parked(ThreadState::Blocked),
            s == old(self)@.park_switch(ThreadState::Blocked),
            s.to == final(self)@.current,
            s.to matches Some(i) ==> (final(self)@.threads[i as int] matches Some(t) && s.resume
                == Some(Resume { kernel_stack_top: t.kernel_stack_top, space_root: t.space_root })),
    {
        self.set_current_state(ThreadState::Blocked);
        let next: Option<usize> = self.pop_ready();
        self.switch_to(next)
    }

    /// Marks the current thread `Blocked` and switches directly to `target`,
    /// bypassing the ready queue: the synchronous handoff. `target` may itself
    /// be blocked; it is made `Running`. Exactly one context switch, no
    /// run-queue traffic. A terminated target never runs again: the next ready
    /// thread takes the processor instead.
    pub fn handoff_to(&mut self, target: usize) -> (s: Switch)
        requires
            old(self).wf(),
            old(self)@.occupied(target),
            old(self)@.switches < u64::MAX,
        ensures
            final(self).wf(),
            final(self)@ == old(self)@.handed_to(target),
            s == old(self)@.handing_switch(target),
            s.to == final(self)@.current,
            s.to matches Some(i) ==> (final(self)@.threads[i as int] matches Some(t) && s.resume
                == Some(Resume { kernel_stack_top: t.kernel_stack_top, space_root: t.space_root })),
    {
        if let Some(t) = self.threads[target] {
            if t.state == ThreadState::Exited {
                return self.block_current();
            }
        }
        self.set_current_state(ThreadState::Blocked);
        self.switch_to(Some(target))
    }

    /// Switches back to the boot context, ending the run. The current thread
    /// is left as it is.
    pub fn yield_to_boot(&mut self) -> (s: Switch)
        requires
            old(self).wf(),
            old(self)@.switches < u64::MAX,
        ensures
            final(self).wf(),
            final(self)@ == old(self)@.switched(None),
            s == old(self)@.switch(None),
    {
        self.switch_to(None)
    }

    /// Marks a blocked thread `Ready` and enqueues it, without switching. The
    /// caller decides whether to also hand off to it. A terminated thread is
    /// left alone.
    pub fn unblock(&mut self, idx: usize)
        requires
            old(self).wf(),
            idx < MAX_THREADS,
        ensures
            final(self).wf(),
            final(self)@ == old(self)@.unblocked(idx),
    {
        if let Some(t) = self.threads[idx] {
            if t.state == ThreadState::Exited {
                return;
            }
        }
        self.set_state(idx, ThreadState::Ready);
        let _ = self.ready.push(idx);
    }

    /// Unblocks slot `idx` if it still holds the live thread `id`: how a wakeup
    /// posted by another CPU is acted on by the one that owns the thread. A
    /// slot reused since the wakeup was posted is left alone.
    pub fn unblock_thread(&mut self, idx: usize, id: ThreadId) -> (woken: bool)
        requires
            old(self).wf(),
        ensures
            final(self).wf(),
            woken == (old(self)@.thread(idx) matches Some(t) && t.id == id && t.state
                != ThreadState::Exited),
            final(self)@ == (if woken {
                old(self)@.unblocked(idx)
            } else {
                old(self)@
            }),
    {
        match self.thread_at(idx) {
            Some(t) => {
                if t.id == id && t.state != ThreadState::Exited {
                    self.unblock(idx);
                    true
                } else {
                    false
                }
            },
            None => false,
        }
    }

    /// Terminates the current thread and switches to the next ready thread, or
    /// back to the boot context only when nothing is runnable.
    pub fn exit_current(&mut self) -> (s: Switch)
        requires
            old(self).wf(),
            old(self)@.switches < u64::MAX,
        ensures
            final(self).wf(),
            final(self)@ == old(self)@.parked(ThreadState::Exited),
            s == old(self)@.park_switch(ThreadState::Exited),
            s.to == final(self)@.current,
            s.to matches Some(i) ==> (final(self)@.threads[i as int] matches Some(t) && s.resume
                == Some(Resume { kernel_stack_top: t.kernel_stack_top, space_root: t.space_root })),
    {
        self.set_current_state(ThreadState::Exited);
        let next: Option<usize> = self.pop_ready();
        self.switch_to(next)
    }

    /// Terminates thread `idx`: marks it `Exited` so it is never dispatched. A
    /// terminated thread left in the ready queue is skipped. Terminating a
    /// stale index is a no-op.
    pub fn terminate(&mut self, idx: usize)
        requires
            old(self).wf(),
        ensures
            final(self).wf(),
            final(self)@ == old(self)@.with_state(idx, ThreadState::Exited),
    {
        self.set_state(idx, ThreadState::Exited);
    }

    /// Reaps a non-running thread: removes it from the ready ring and the
    /// thread table, freeing its slot for reuse, and returns it so the caller
    /// can reclaim its kernel stack. Refuses the current thread, returning
    /// `None` for it or for a stale or empty index.
    pub fn reap(&mut self, idx: usize) -> (r: Option<Thread>)
        requires
            old(self).wf(),
        ensures
            final(self).wf(),
            if old(self)@.current == Some(idx) {
                r is None && final(self)@ == old(self)@
            } else {
                let v = old(self)@;
                &&& r == v.thread(idx)
                &&& final(self)@ == (SchedView {
                    ready: without(v.ready, idx),
                    threads: if idx < MAX_THREADS {
                        v.threads.update(idx as int, None)
                    } else {
                        v.threads
                    },
                    ..v
                })
            },
    {
        if let Some(cur) = self.current {
            if cur == idx {
                return None;
            }
        }
        proof {
            self.ready@.lemma_filter_len(other_than(idx));
        }
        let _ = self.ready.remove(idx);
        if idx < MAX_THREADS {
            let t: Option<Thread> = self.threads[idx];
            self.threads[idx] = None;
            t
        } else {
            None
        }
    }

    /// Pops the next runnable thread from the ready queue, skipping any that
    /// have been terminated or reaped.
    fn pop_ready(&mut self) -> (r: Option<usize>)
        requires
            old(self).wf(),
        ensures
            final(self).wf(),
            final(self)@ == old(self)@.popped(),
            r == old(self)@.next(),
            r matches Some(i) ==> final(self)@.runnable(i),
    {
        let ghost v = self@;
        let ghost n: int = 0;
        let ghost p = v.dispatchable();
        assert(v.ready.skip(0) =~= v.ready);
        while !self.ready.is_empty()
            invariant
                self.ready.wf(),
                v.wf(),
                p == v.dispatchable(),
                v == old(self)@,
                self@ == (SchedView { ready: v.ready.skip(n), ..v }),
                0 <= n <= v.ready.len(),
                forall|j: int| 0 <= j < n ==> !p(#[trigger] v.ready[j]),
            decreases v.ready.len() - n,
        {
            let popped = self.ready.pop();
            if let Some(idx) = popped {
                proof {
                    assert(idx == v.ready[n]);
                    assert(v.ready.skip(n).drop_first() =~= v.ready.skip(n + 1));
                }
                if let Some(t) = self.thread_at_raw(idx) {
                    if t.state != ThreadState::Exited {
                        proof {
                            slots::lemma_first_is(v.ready, p, n);
                        }
                        return Some(idx);
                    }
                }
                proof {
                    n = n + 1;
                }
            }
        }
        proof {
            assert(n == v.ready.len());
            slots::lemma_first_is(v.ready, p, n);
            assert(v.ready.skip(n) =~= Seq::<usize>::empty());
        }
        None
    }

    /// The thread in slot `idx`, if it exists.
    pub fn thread_at(&self, idx: usize) -> (r: Option<Thread>)
        requires
            self.wf(),
        ensures
            r == self@.thread(idx),
    {
        self.thread_at_raw(idx)
    }

    fn thread_at_raw(&self, idx: usize) -> (r: Option<Thread>)
        requires
            self@.threads.len() == MAX_THREADS,
        ensures
            r == self@.thread(idx),
    {
        if idx < MAX_THREADS {
            self.threads[idx]
        } else {
            None
        }
    }

    /// Slots in the thread table.
    pub fn capacity(&self) -> (n: usize)
        ensures
            n == MAX_THREADS,
    {
        MAX_THREADS
    }

    /// The slot of the live thread called `id`, if this scheduler owns it.
    pub fn index_of(&self, id: ThreadId) -> (r: Option<usize>)
        requires
            self.wf(),
        ensures
            match r {
                Some(i) => i == self@.slot_of(id) && i < MAX_THREADS && self@.runnable(i)
                    && self@.threads[i as int]->0.id == id,
                None => self@.slot_of(id) == MAX_THREADS,
            },
    {
        let mut i: usize = 0;
        while i < MAX_THREADS
            invariant
                self.wf(),
                i <= MAX_THREADS,
                forall|j: int| 0 <= j < i ==> !live_as(id)(#[trigger] self@.threads[j]),
            decreases MAX_THREADS - i,
        {
            if let Some(t) = self.threads[i] {
                if t.id == id && t.state != ThreadState::Exited {
                    proof {
                        slots::lemma_first_is(self@.threads, live_as(id), i as int);
                    }
                    return Some(i);
                }
            }
            i += 1;
        }
        proof {
            slots::lemma_first_is(self@.threads, live_as(id), i as int);
        }
        None
    }

    /// The slot of the thread called `id`, whether or not it has exited.
    pub fn lookup(&self, id: ThreadId) -> (r: Option<usize>)
        requires
            self.wf(),
        ensures
            match r {
                Some(i) => i == self@.place_of(id) && i < MAX_THREADS && self@.occupied(i)
                    && self@.threads[i as int]->0.id == id,
                None => self@.place_of(id) == MAX_THREADS,
            },
    {
        let mut i: usize = 0;
        while i < MAX_THREADS
            invariant
                self.wf(),
                i <= MAX_THREADS,
                forall|j: int| 0 <= j < i ==> !known_as(id)(#[trigger] self@.threads[j]),
            decreases MAX_THREADS - i,
        {
            if let Some(t) = self.threads[i] {
                if t.id == id {
                    proof {
                        slots::lemma_first_is(self@.threads, known_as(id), i as int);
                    }
                    return Some(i);
                }
            }
            i += 1;
        }
        proof {
            slots::lemma_first_is(self@.threads, known_as(id), i as int);
        }
        None
    }

    /// The identity of the thread in slot `idx`, if it exists.
    pub fn thread_id(&self, idx: usize) -> (r: Option<ThreadId>)
        requires
            self.wf(),
        ensures
            r == match self@.thread(idx) {
                Some(t) => Some(t.id),
                None => None,
            },
    {
        match self.thread_at(idx) {
            Some(t) => Some(t.id),
            None => None,
        }
    }

    /// The scheduling state of thread `idx`, if it exists.
    pub fn thread_state(&self, idx: usize) -> (r: Option<ThreadState>)
        requires
            self.wf(),
        ensures
            r == match self@.thread(idx) {
                Some(t) => Some(t.state),
                None => None,
            },
    {
        match self.thread_at(idx) {
            Some(t) => Some(t.state),
            None => None,
        }
    }

    /// The effective priority of thread `idx`, if it exists.
    pub fn thread_priority(&self, idx: usize) -> (r: Option<u8>)
        requires
            self.wf(),
        ensures
            r == match self@.thread(idx) {
                Some(t) => Some(t.priority),
                None => None,
            },
    {
        match self.thread_at(idx) {
            Some(t) => Some(t.priority),
            None => None,
        }
    }

    /// Sets the effective priority of thread `idx` (used to carry a caller's
    /// priority to a callee for a synchronous call's duration).
    pub fn set_thread_priority(&mut self, idx: usize, priority: u8)
        requires
            old(self).wf(),
        ensures
            final(self).wf(),
            final(self)@ == old(self)@.with_priority(idx, priority),
    {
        if idx < MAX_THREADS {
            if let Some(t) = self.threads[idx] {
                let mut u: Thread = t;
                u.priority = priority;
                self.threads[idx] = Some(u);
            }
        }
    }

    /// The causal id thread `idx`'s work belongs to, if it exists.
    pub fn thread_correlation(&self, idx: usize) -> (r: Option<u64>)
        requires
            self.wf(),
        ensures
            r == match self@.thread(idx) {
                Some(t) => Some(t.correlation),
                None => None,
            },
    {
        match self.thread_at(idx) {
            Some(t) => Some(t.correlation),
            None => None,
        }
    }

    /// Sets the causal id of thread `idx` (used to carry a caller's id to a
    /// callee for a synchronous call's duration, and to restore it after).
    /// For the running thread it becomes the CPU's at once. Returns whether
    /// `idx` is the running thread, in which case the caller republishes the
    /// identity events are stamped with.
    pub fn set_thread_correlation(&mut self, idx: usize, correlation: u64) -> (republish: bool)
        requires
            old(self).wf(),
        ensures
            final(self).wf(),
            final(self)@ == old(self)@.with_correlation(idx, correlation),
            republish == (old(self)@.current == Some(idx)),
    {
        if idx < MAX_THREADS {
            if let Some(t) = self.threads[idx] {
                let mut u: Thread = t;
                u.correlation = correlation;
                self.threads[idx] = Some(u);
            }
        }
        let running: bool = match self.current {
            Some(cur) => cur == idx,
            None => false,
        };
        if running {
            self.cause = correlation;
        }
        running
    }

    /// The causal id that what happens on this CPU is attributed to: the running
    /// thread's since it was switched to or given one, 0 in the boot context,
    /// unless other work was begun since.
    pub fn cause(&self) -> (c: u64)
        ensures
            c == self@.cause,
    {
        self.cause
    }

    /// Begins work of its own cause, which lasts until the next switch or until
    /// the running thread is given a cause. The thread's own is left alone.
    pub fn set_cause(&mut self, cause: u64)
        requires
            old(self).wf(),
        ensures
            final(self).wf(),
            final(self)@ == old(self)@.with_cause(cause),
    {
        self.cause = cause;
    }

    /// Sets when the bounded receive of thread `idx` gives up.
    pub fn set_recv_deadline(&mut self, idx: usize, deadline: Option<u64>)
        requires
            old(self).wf(),
        ensures
            final(self).wf(),
            final(self)@ == old(self)@.with_deadline(idx, deadline),
    {
        if idx < MAX_THREADS {
            if let Some(t) = self.threads[idx] {
                let mut u: Thread = t;
                u.recv_deadline = deadline;
                self.threads[idx] = Some(u);
            }
        }
    }

    /// Called once per timer tick from the interrupt path. Advances the tick
    /// count, ends the run at the tick limit, and preempts the current thread
    /// round-robin when its quantum expires. Returns the switch to perform, if
    /// the tick asks for one.
    pub fn on_tick(&mut self) -> (r: Option<Switch>)
        requires
            old(self).wf(),
            old(self)@.ticks < u64::MAX,
            old(self)@.switches < u64::MAX,
        ensures
            final(self).wf(),
            final(self)@ == old(self)@.after_tick(),
            ({
                let v = old(self)@;
                r == if v.at_limit() {
                    Some(v.ticked().requeued().switch(None))
                } else if v.preempts() {
                    Some(v.ticked().popped().requeued().switch(v.next()))
                } else {
                    None
                }
            }),
            r matches Some(s) ==> s.to == final(self)@.current && (s.to matches Some(i) ==> (
            final(self)@.threads[i as int] matches Some(t) && s.resume == Some(
                Resume { kernel_stack_top: t.kernel_stack_top, space_root: t.space_root },
            ))),
    {
        let ghost v = self@;
        self.ticks += 1;
        if self.tick_limit != 0 && self.ticks >= self.tick_limit {
            assert(self@ =~= v.ticked());
            self.requeue_current();
            return Some(self.switch_to(None));
        }
        if self.quantum > 1 {
            self.quantum -= 1;
            assert(self@ =~= v.ticked());
            return None;
        }
        self.quantum = self.quantum_reset;
        assert(self@ =~= v.ticked());
        proof {
            assert(v.dispatchable() =~= v.ticked().dispatchable());
        }
        // Round-robin: run the front of the queue next, current goes to back.
        match self.pop_ready() {
            None => None,
            Some(next) => {
                self.requeue_current();
                Some(self.switch_to(Some(next)))
            },
        }
    }

    /// Puts the current thread back on the ready queue as `Ready` (it was
    /// preempted, not blocked), unless it was terminated.
    fn requeue_current(&mut self)
        requires
            old(self).wf(),
        ensures
            final(self).wf(),
            final(self)@ == old(self)@.requeued(),
    {
        if let Some(cur) = self.current {
            self.unblock(cur);
        }
    }

    /// Moves the bookkeeping to thread `next` (or the boot context when
    /// `None`) and says what the processor must do.
    fn switch_to(&mut self, next: Option<usize>) -> (s: Switch)
        requires
            old(self).wf(),
            next matches Some(i) ==> old(self)@.occupied(i),
            old(self)@.switches < u64::MAX,
        ensures
            final(self).wf(),
            final(self)@ == old(self)@.switched(next),
            s == old(self)@.switch(next),
            s.to == final(self)@.current,
            s.to matches Some(i) ==> (final(self)@.threads[i as int] matches Some(t) && s.resume
                == Some(Resume { kernel_stack_top: t.kernel_stack_top, space_root: t.space_root })),
    {
        let from: Option<usize> = self.current;
        let to: Option<Thread> = match next {
            Some(i) => self.threads[i],
            None => None,
        };
        if let Some(i) = next {
            self.set_state(i, ThreadState::Running);
        }
        let trace: TraceContext = trace_context(to);
        self.current = next;
        self.switches += 1;
        self.cause = trace.correlation;
        Switch {
            from,
            to: next,
            resume: match to {
                Some(t) => Some(
                    Resume { kernel_stack_top: t.kernel_stack_top, space_root: t.space_root },
                ),
                None => None,
            },
            trace,
        }
    }

    fn set_state(&mut self, idx: usize, state: ThreadState)
        requires
            old(self).wf(),
        ensures
            final(self).wf(),
            final(self)@ == old(self)@.with_state(idx, state),
    {
        if idx < MAX_THREADS {
            if let Some(t) = self.threads[idx] {
                if t.state != ThreadState::Exited {
                    let mut u: Thread = t;
                    u.state = state;
                    self.threads[idx] = Some(u);
                }
            }
        }
    }

    fn set_current_state(&mut self, state: ThreadState)
        requires
            old(self).wf(),
        ensures
            final(self).wf(),
            final(self)@ == old(self)@.with_current(state),
    {
        if let Some(cur) = self.current {
            self.set_state(cur, state);
        }
    }

    /// Total context switches performed.
    pub fn switch_count(&self) -> (n: u64)
        ensures
            n == self@.switches,
    {
        self.switches
    }

    /// Ticks observed.
    pub fn ticks(&self) -> (n: u64)
        ensures
            n == self@.ticks,
    {
        self.ticks
    }

    /// Table index of the running thread, or `None` for the boot context.
    pub fn current(&self) -> (r: Option<usize>)
        ensures
            r == self@.current,
    {
        self.current
    }
}

impl SchedView {
    /// With thread `i`, if any, given `priority`.
    pub open spec fn with_priority(self, i: usize, priority: u8) -> SchedView {
        match self.thread(i) {
            Some(t) => SchedView {
                threads: self.threads.update(i as int, Some(Thread { priority, ..t })),
                ..self
            },
            None => self,
        }
    }

    /// With thread `i`, if any, given `correlation`, which is the CPU's at once
    /// if it runs.
    pub open spec fn with_correlation(self, i: usize, correlation: u64) -> SchedView {
        let v = match self.thread(i) {
            Some(t) => SchedView {
                threads: self.threads.update(i as int, Some(Thread { correlation, ..t })),
                ..self
            },
            None => self,
        };
        if self.current == Some(i) {
            v.with_cause(correlation)
        } else {
            v
        }
    }

    /// With what happens here attributed to `cause`.
    pub open spec fn with_cause(self, cause: u64) -> SchedView {
        SchedView { cause, ..self }
    }

    /// With thread `i`, if any, given the receive deadline `deadline`.
    pub open spec fn with_deadline(self, i: usize, deadline: Option<u64>) -> SchedView {
        match self.thread(i) {
            Some(t) => SchedView {
                threads: self.threads.update(
                    i as int,
                    Some(Thread { recv_deadline: deadline, ..t }),
                ),
                ..self
            },
            None => self,
        }
    }
}

/// The identity events are stamped with while `to` runs.
fn trace_context(to: Option<Thread>) -> (t: TraceContext)
    ensures
        t == match to {
            Some(t) => trace_of(t),
            None => no_trace(),
        },
{
    match to {
        Some(t) => TraceContext {
            thread_id: t.id.0,
            process_id: match t.process {
                Some(p) => p.0 as u64,
                None => 0,
            },
            correlation: t.correlation,
        },
        None => TraceContext { thread_id: 0, process_id: 0, correlation: 0 },
    }
}

/// A terminated thread is never dispatched, though its index may still be
/// queued.
pub proof fn law_exited_is_never_next(v: SchedView, i: usize)
    requires
        v.wf(),
    ensures
        v.with_state(i, ThreadState::Exited).next() != Some(i),
{
    let w = v.with_state(i, ThreadState::Exited);
    slots::lemma_first(w.ready, w.dispatchable());
}

/// Whatever is dispatched is a thread in the table that has not exited, so a
/// switch never lands on an empty slot.
pub proof fn law_next_is_runnable(v: SchedView)
    requires
        v.wf(),
    ensures
        v.next() matches Some(i) ==> v.runnable(i),
        v.popped().wf(),
{
    slots::lemma_first(v.ready, v.dispatchable());
}

/// A reaped index is gone from the queue: it cannot be popped and dispatched
/// after its slot is reused.
pub proof fn law_reaped_index_is_not_queued(q: Seq<usize>, idx: usize)
    ensures
        !without(q, idx).contains(idx),
        forall|i: usize| i != idx ==> (#[trigger] q.contains(i) <==> without(q, idx).contains(i)),
{
    let p = other_than(idx);
    if without(q, idx).contains(idx) {
        let k = choose|k: int| 0 <= k < without(q, idx).len() && without(q, idx)[k] == idx;
        q.lemma_filter_pred(p, k);
    }
    assert forall|i: usize| i != idx implies (#[trigger] q.contains(i) <==> without(
        q,
        idx,
    ).contains(i)) by {
        if q.contains(i) {
            let k = choose|k: int| 0 <= k < q.len() && q[k] == i;
            q.lemma_filter_contains(p, k);
        }
        if without(q, idx).contains(i) {
            q.lemma_filter_contains_rev(p, i);
        }
    }
}

/// Something done to a scheduler.
#[derive(Clone, Copy, PartialEq, Eq, Debug, Structural)]
pub enum SchedStep {
    Add { thread: Thread, correlation: u64 },
    Run,
    Block,
    Handoff(usize),
    YieldToBoot,
    Unblock(usize),
    Exit,
    Terminate(usize),
    Tick,
    SetPriority(usize, u8),
    SetCorrelation(usize, u64),
    SetDeadline(usize, Option<u64>),
}

impl SchedView {
    /// The scheduler after a thread is added, where there is room.
    pub open spec fn added(self, thread: Thread, correlation: u64) -> SchedView {
        if self.vacancy() == MAX_THREADS || self.ready.len() == MAX_THREADS {
            self
        } else {
            SchedView {
                threads: self.threads.update(
                    self.vacancy(),
                    Some(Thread { state: ThreadState::Ready, correlation, ..thread }),
                ),
                ready: self.ready.push(self.vacancy() as usize),
                ..self
            }
        }
    }

    /// The scheduler once a run begins.
    pub open spec fn ran(self) -> SchedView {
        match self.next() {
            Some(first) => (SchedView {
                quantum: self.quantum_reset,
                ..self.popped()
            }).switched(Some(first)),
            None => self.popped(),
        }
    }

    /// The scheduler after a tick.
    pub open spec fn after_tick(self) -> SchedView {
        if self.at_limit() {
            self.ticked().requeued().switched(None)
        } else if self.preempts() {
            self.ticked().popped().requeued().switched(self.next())
        } else if self.quantum > 1 {
            self.ticked()
        } else {
            self.ticked().popped()
        }
    }

    /// The scheduler after `step`.
    pub open spec fn stepped(self, step: SchedStep) -> SchedView {
        match step {
            SchedStep::Add { thread, correlation } => self.added(thread, correlation),
            SchedStep::Run => self.ran(),
            SchedStep::Block => self.parked(ThreadState::Blocked),
            SchedStep::Handoff(i) => self.handed_to(i),
            SchedStep::YieldToBoot => self.switched(None),
            SchedStep::Unblock(i) => self.unblocked(i),
            SchedStep::Exit => self.parked(ThreadState::Exited),
            SchedStep::Terminate(i) => self.with_state(i, ThreadState::Exited),
            SchedStep::Tick => self.after_tick(),
            SchedStep::SetPriority(i, p) => self.with_priority(i, p),
            SchedStep::SetCorrelation(i, c) => self.with_correlation(i, c),
            SchedStep::SetDeadline(i, d) => self.with_deadline(i, d),
        }
    }

    /// The scheduler after `steps`, in order.
    pub open spec fn stepped_all(self, steps: Seq<SchedStep>) -> SchedView
        decreases steps.len(),
    {
        if steps.len() == 0 {
            self
        } else {
            self.stepped_all(steps.drop_last()).stepped(steps.last())
        }
    }
}

/// Slot `i` of `w` holds a terminated thread, and runs only if it ran in `v`.
pub open spec fn kept_off(v: SchedView, w: SchedView, i: usize) -> bool {
    &&& w.threads.len() == MAX_THREADS
    &&& w.exited(i)
    &&& w.current == Some(i) ==> v.current == Some(i)
}

proof fn lemma_state_keeps_exited(v: SchedView, i: usize, j: usize, state: ThreadState)
    requires
        v.threads.len() == MAX_THREADS,
        v.exited(i),
    ensures
        kept_off(v, v.with_state(j, state), i),
{
}

proof fn lemma_pop_keeps_exited(v: SchedView, i: usize)
    requires
        v.threads.len() == MAX_THREADS,
        v.exited(i),
    ensures
        kept_off(v, v.popped(), i),
        v.next() != Some(i),
{
    slots::lemma_first(v.ready, v.dispatchable());
}

proof fn lemma_switch_keeps_exited(v: SchedView, i: usize, next: Option<usize>)
    requires
        v.threads.len() == MAX_THREADS,
        v.exited(i),
        next != Some(i),
    ensures
        kept_off(v, v.switched(next), i),
{
    if let Some(j) = next {
        lemma_state_keeps_exited(v, i, j, ThreadState::Running);
    }
}

proof fn lemma_park_keeps_exited(v: SchedView, i: usize, state: ThreadState)
    requires
        v.threads.len() == MAX_THREADS,
        v.exited(i),
    ensures
        kept_off(v, v.with_current(state), i),
        kept_off(v, v.parked(state), i),
{
    if let Some(j) = v.current {
        lemma_state_keeps_exited(v, i, j, state);
    }
    let w = v.with_current(state);
    lemma_pop_keeps_exited(w, i);
    lemma_switch_keeps_exited(w.popped(), i, w.next());
}

proof fn lemma_unblock_keeps_exited(v: SchedView, i: usize, j: usize)
    requires
        v.threads.len() == MAX_THREADS,
        v.exited(i),
    ensures
        kept_off(v, v.unblocked(j), i),
{
    lemma_state_keeps_exited(v, i, j, ThreadState::Ready);
}

proof fn lemma_tick_keeps_exited(v: SchedView, i: usize)
    requires
        v.threads.len() == MAX_THREADS,
        v.exited(i),
    ensures
        kept_off(v, v.after_tick(), i),
{
    let t = v.ticked();
    assert(v.dispatchable() =~= t.dispatchable());
    lemma_pop_keeps_exited(v, i);
    lemma_pop_keeps_exited(t, i);
    if let Some(j) = v.current {
        lemma_unblock_keeps_exited(t, i, j);
        lemma_unblock_keeps_exited(t.popped(), i, j);
    }
    lemma_switch_keeps_exited(t.requeued(), i, None);
    lemma_switch_keeps_exited(t.popped().requeued(), i, v.next());
}

proof fn lemma_step_keeps_exited(v: SchedView, i: usize, step: SchedStep)
    requires
        v.threads.len() == MAX_THREADS,
        v.exited(i),
    ensures
        kept_off(v, v.stepped(step), i),
{
    match step {
        SchedStep::Add { thread, correlation } => {
            slots::lemma_first(v.threads, slots::free::<Thread>());
        },
        SchedStep::Run => {
            lemma_pop_keeps_exited(v, i);
            if let Some(first) = v.next() {
                let w = SchedView { quantum: v.quantum_reset, ..v.popped() };
                lemma_switch_keeps_exited(w, i, Some(first));
            }
        },
        SchedStep::Block => {
            lemma_park_keeps_exited(v, i, ThreadState::Blocked);
        },
        SchedStep::Handoff(j) => {
            lemma_park_keeps_exited(v, i, ThreadState::Blocked);
            if v.runnable(j) {
                lemma_switch_keeps_exited(v.with_current(ThreadState::Blocked), i, Some(j));
            }
        },
        SchedStep::YieldToBoot => {
            lemma_switch_keeps_exited(v, i, None);
        },
        SchedStep::Unblock(j) => {
            lemma_unblock_keeps_exited(v, i, j);
        },
        SchedStep::Exit => {
            lemma_park_keeps_exited(v, i, ThreadState::Exited);
        },
        SchedStep::Terminate(j) => {
            lemma_state_keeps_exited(v, i, j, ThreadState::Exited);
        },
        SchedStep::Tick => {
            lemma_tick_keeps_exited(v, i);
        },
        SchedStep::SetPriority(j, p) => {},
        SchedStep::SetCorrelation(j, c) => {},
        SchedStep::SetDeadline(j, d) => {},
    }
}

/// A terminated thread stays terminated whatever is done short of reaping it,
/// and is never switched to: once off the processor it stays off.
pub proof fn law_exited_stays_exited(v: SchedView, i: usize, steps: Seq<SchedStep>)
    requires
        v.wf(),
        v.exited(i),
    ensures
        kept_off(v, v.stepped_all(steps), i),
    decreases steps.len(),
{
    if steps.len() > 0 {
        law_exited_stays_exited(v, i, steps.drop_last());
        lemma_step_keeps_exited(v.stepped_all(steps.drop_last()), i, steps.last());
    }
}

/// Work of its own cause lasts until the next switch or until the running thread
/// is given a cause, and changes nobody's own: what the CPU is attributed to
/// afterwards does not depend on it.
pub proof fn law_a_cause_lasts_until_the_next_switch(
    v: SchedView,
    cause: u64,
    next: Option<usize>,
    running: usize,
    correlation: u64,
)
    ensures
        v.with_cause(cause).cause == cause,
        v.with_cause(cause).threads == v.threads,
        v.with_cause(cause).switched(next) == v.switched(next),
        v.current == Some(running) ==> v.with_cause(cause).with_correlation(running, correlation)
            == v.with_correlation(running, correlation),
        next matches Some(i) ==> (v.thread(i) matches Some(t) ==> v.switched(next).cause
            == t.correlation),
        next is None ==> v.switched(next).cause == 0,
{
}

/// A synchronous handoff is exactly one switch and no queue traffic.
pub proof fn law_handoff_is_one_switch(v: SchedView, target: usize)
    requires
        v.wf(),
        v.runnable(target),
        v.switches < u64::MAX,
    ensures
        v.handed_to(target).switches == v.switches + 1,
        v.handed_to(target).ready == v.ready,
        v.handed_to(target).current == Some(target),
        v.handed_to(target).threads[target as int]->0.state == ThreadState::Running,
{
}

/// Round robin: when every queued thread is runnable, a preempting tick takes
/// the front and puts the running thread at the back, so everyone else moves
/// one place forward.
pub proof fn law_preemption_rotates(v: SchedView, running: usize)
    requires
        v.wf(),
        v.current == Some(running),
        v.preempts(),
        v.runnable(running),
        v.ready.len() < MAX_THREADS,
        forall|j: int| 0 <= j < v.ready.len() ==> v.runnable(#[trigger] v.ready[j]),
    ensures
        v.next() == Some(v.ready[0]),
        v.ticked().popped().requeued().switched(v.next()).ready == v.ready.drop_first().push(
            running,
        ),
{
    slots::lemma_first(v.ready, v.dispatchable());
    slots::lemma_first_is(v.ready, v.dispatchable(), 0);
    let t = v.ticked();
    assert(v.dispatchable() =~= t.dispatchable());
    assert(t.ready.skip(1) =~= v.ready.drop_first());
    assert(t.popped().requeued().ready =~= v.ready.drop_first().push(running));
}

/// A switch to a thread loads that thread: its kernel stack, its page tables and
/// its identity, as the table has them, whichever operation asks for the switch.
/// A switch to the boot context loads nothing. What was running is saved.
pub proof fn law_a_switch_loads_its_thread(
    v: SchedView,
    next: Option<usize>,
    state: ThreadState,
    target: usize,
)
    requires
        v.wf(),
        next matches Some(i) ==> i < MAX_THREADS && v.threads[i as int] is Some,
        target < MAX_THREADS,
        v.threads[target as int] is Some,
    ensures
        forall|s: Switch|
            (s == v.switch(next) || s == v.park_switch(state) || s == v.handing_switch(target) || (s
                == v.ticked().popped().requeued().switch(v.next()))) ==> {
                &&& s.from == v.current
                &&& #[trigger] s.to matches Some(i) ==> {
                    &&& i < MAX_THREADS
                    &&& v.threads[i as int] matches Some(t)
                    &&& s.resume matches Some(r)
                    &&& r.kernel_stack_top == t.kernel_stack_top
                    &&& r.space_root == t.space_root
                    &&& s.trace.thread_id == t.id.0
                    &&& t.process matches Some(p) ==> s.trace.process_id == p.0
                    &&& t.process is None ==> s.trace.process_id == 0
                    &&& s.trace.correlation == t.correlation
                }
                &&& s.to is None ==> s.resume is None && s.trace.thread_id == 0
                    && s.trace.process_id == 0 && s.trace.correlation == 0
            },
        v.switch(next).to == next,
{
    let w = v.with_current(state);
    let b = v.with_current(ThreadState::Blocked);
    let t = v.ticked();
    slots::lemma_first(v.ready, v.dispatchable());
    slots::lemma_first(w.ready, w.dispatchable());
    slots::lemma_first(b.ready, b.dispatchable());
    assert(v.dispatchable() =~= t.dispatchable());
}

/// Dispatch is first in, first out: the next thread is the one in front of the
/// queue among those that can run, everything up to it leaves the queue and the
/// rest keeps its order.
pub proof fn law_the_front_runs_next(v: SchedView)
    requires
        v.wf(),
    ensures
        match v.next() {
            Some(i) => exists|k: int|
                {
                    &&& 0 <= k < v.ready.len()
                    &&& #[trigger] v.ready[k] == i
                    &&& i < MAX_THREADS
                    &&& v.threads[i as int] matches Some(t)
                    &&& t.state != ThreadState::Exited
                    &&& forall|j: int|
                        0 <= j < k && #[trigger] v.ready[j] < MAX_THREADS ==> (
                        v.threads[v.ready[j] as int] matches Some(u) ==> u.state
                            == ThreadState::Exited)
                    &&& v.popped().ready == v.ready.subrange(k + 1, v.ready.len() as int)
                },
            None => {
                &&& v.popped().ready.len() == 0
                &&& forall|j: int|
                    0 <= j < v.ready.len() && #[trigger] v.ready[j] < MAX_THREADS ==> (
                    v.threads[v.ready[j] as int] matches Some(u) ==> u.state
                        == ThreadState::Exited)
            },
        },
        v.popped().threads == v.threads,
        v.popped().current == v.current,
        v.popped().quantum == v.quantum,
        v.popped().quantum_reset == v.quantum_reset,
        v.popped().ticks == v.ticks,
        v.popped().tick_limit == v.tick_limit,
        v.popped().switches == v.switches,
        v.popped().cause == v.cause,
{
    slots::lemma_first(v.ready, v.dispatchable());
    assert forall|j: int|
        0 <= j < v.pick() && #[trigger] v.ready[j] < MAX_THREADS implies (
    v.threads[v.ready[j] as int] matches Some(u) ==> u.state == ThreadState::Exited) by {
        assert(!v.dispatchable()(v.ready[j]));
    }
    if v.pick() < v.ready.len() {
        assert(v.ready[v.pick()] == v.next()->0);
        assert(v.ready.skip(v.pick() + 1) =~= v.ready.subrange(
            v.pick() + 1,
            v.ready.len() as int,
        ));
    }
}

/// A switch marks the thread it is to as running, counts itself and attributes
/// the CPU to that thread's cause. It touches no other thread, and nothing of
/// that one but its state; the queue and the clock stay.
pub proof fn law_a_switch_touches_one_thread(v: SchedView, next: Option<usize>)
    requires
        v.wf(),
        v.switches < u64::MAX,
        next matches Some(i) ==> i < MAX_THREADS && v.threads[i as int] is Some,
    ensures
        v.switched(next).current == next,
        v.switched(next).switches == v.switches + 1,
        v.switched(next).ready == v.ready,
        v.switched(next).quantum == v.quantum,
        v.switched(next).quantum_reset == v.quantum_reset,
        v.switched(next).ticks == v.ticks,
        v.switched(next).tick_limit == v.tick_limit,
        v.switched(next).threads.len() == MAX_THREADS,
        forall|j: int|
            0 <= j < MAX_THREADS && next != Some(j as usize) ==> #[trigger] v.switched(
                next,
            ).threads[j] == v.threads[j],
        next matches Some(i) ==> {
            let t = v.threads[i as int]->0;
            &&& v.switched(next).cause == t.correlation
            &&& v.switched(next).threads[i as int] matches Some(u)
            &&& t.state != ThreadState::Exited ==> u.state == ThreadState::Running
            &&& t.state == ThreadState::Exited ==> u.state == ThreadState::Exited
            &&& u.id == t.id && u.priority == t.priority && u.correlation == t.correlation
            &&& u.process == t.process && u.recv_deadline == t.recv_deadline
            &&& u.kernel_stack_base == t.kernel_stack_base
            &&& u.kernel_stack_top == t.kernel_stack_top && u.space_root == t.space_root
        },
        next is None ==> v.switched(next).cause == 0,
{
}

/// Parking stops the running thread as it says and starts the one in front of
/// the queue, and nobody else changes. The one that stopped is not queued again.
pub proof fn law_parking_stops_the_running_thread(v: SchedView, running: usize, state: ThreadState)
    requires
        v.wf(),
        v.switches < u64::MAX,
        v.current == Some(running),
        v.threads[running as int]->0.state != ThreadState::Exited,
        !v.ready.contains(running),
    ensures
        v.parked(state).switches == v.switches + 1,
        v.parked(state).current != Some(running),
        v.parked(state).threads[running as int] == Some(
            Thread { state, ..v.threads[running as int]->0 },
        ),
        !v.parked(state).ready.contains(running),
        v.parked(state).current == v.next(),
        v.parked(state).ready == v.popped().ready,
        forall|j: int|
            0 <= j < MAX_THREADS && j != running && v.next() != Some(j as usize)
                ==> #[trigger] v.parked(state).threads[j] == v.threads[j],
        v.next() matches Some(i) ==> v.parked(state).threads[i as int] == Some(
            Thread { state: ThreadState::Running, ..v.threads[i as int]->0 },
        ),
        v.park_switch(state).from == Some(running),
        v.park_switch(state).to == v.parked(state).current,
{
    let w = v.with_current(state);
    slots::lemma_first(v.ready, v.dispatchable());
    slots::lemma_first(w.ready, w.dispatchable());
    assert forall|j: int| 0 <= j < v.ready.len() implies v.dispatchable()(#[trigger] v.ready[j])
        == w.dispatchable()(v.ready[j]) by {
        assert(v.ready.contains(v.ready[j]));
    }
    let p = v.pick();
    if p < v.ready.len() {
        assert(v.dispatchable()(v.ready[p]));
        assert(v.ready.contains(v.ready[p]));
    }
    assert forall|j: int| 0 <= j < p implies !w.dispatchable()(#[trigger] w.ready[j]) by {
        assert(!v.dispatchable()(v.ready[j]));
    }
    slots::lemma_first_is(w.ready, w.dispatchable(), p);
    assert(v.parked(state).ready =~= v.popped().ready);
    if v.parked(state).ready.contains(running) {
        let k = choose|k: int|
            0 <= k < v.popped().ready.len() && v.popped().ready[k] == running;
        assert(v.ready[p + 1 + k] == running);
    }
}

/// Handing off stops the running thread and starts the target, of which only
/// those two states change.
pub proof fn law_a_handoff_swaps_two_threads(v: SchedView, running: usize, target: usize)
    requires
        v.wf(),
        v.switches < u64::MAX,
        v.current == Some(running),
        v.threads[running as int]->0.state != ThreadState::Exited,
        target != running,
        target < MAX_THREADS,
        v.threads[target as int] matches Some(t) && t.state != ThreadState::Exited,
    ensures
        v.handing_switch(target).from == Some(running),
        v.handing_switch(target).to == Some(target),
        v.handed_to(target).threads[running as int] == Some(
            Thread { state: ThreadState::Blocked, ..v.threads[running as int]->0 },
        ),
        v.handed_to(target).threads[target as int] == Some(
            Thread { state: ThreadState::Running, ..v.threads[target as int]->0 },
        ),
        forall|j: int|
            0 <= j < MAX_THREADS && j != running && j != target ==> #[trigger] v.handed_to(
                target,
            ).threads[j] == v.threads[j],
        v.handed_to(target).cause == v.threads[target as int]->0.correlation,
        v.handed_to(target).quantum == v.quantum,
        v.handed_to(target).ticks == v.ticks,
{
}

/// A thread that is made ready goes to the back of the queue, and only its state
/// changes; a terminated one is left alone. Nothing is switched.
pub proof fn law_unblocking_queues_at_the_back(v: SchedView, i: usize)
    requires
        v.wf(),
        i < MAX_THREADS,
        v.threads[i as int] is Some,
        v.ready.len() < MAX_THREADS,
    ensures
        v.threads[i as int]->0.state == ThreadState::Exited ==> v.unblocked(i) == v,
        v.threads[i as int]->0.state != ThreadState::Exited ==> {
            let w = v.unblocked(i);
            &&& w.ready.len() == v.ready.len() + 1
            &&& w.ready.last() == i
            &&& forall|k: int| 0 <= k < v.ready.len() ==> #[trigger] w.ready[k] == v.ready[k]
            &&& w.threads[i as int] == Some(
                Thread { state: ThreadState::Ready, ..v.threads[i as int]->0 },
            )
            &&& w.threads.len() == MAX_THREADS
            &&& forall|j: int|
                0 <= j < MAX_THREADS && j != i ==> #[trigger] w.threads[j] == v.threads[j]
            &&& w.current == v.current && w.switches == v.switches && w.ticks == v.ticks
            &&& w.quantum == v.quantum && w.quantum_reset == v.quantum_reset
            &&& w.tick_limit == v.tick_limit && w.cause == v.cause
        },
{
}

/// Terminating changes the state of the one thread and nothing else.
pub proof fn law_terminating_is_local(v: SchedView, i: usize, state: ThreadState)
    requires
        v.wf(),
    ensures
        v.with_state(i, state).ready == v.ready,
        v.with_state(i, state).current == v.current,
        v.with_state(i, state).switches == v.switches,
        v.with_state(i, state).threads.len() == MAX_THREADS,
        forall|j: int|
            0 <= j < MAX_THREADS && j != i ==> #[trigger] v.with_state(i, state).threads[j]
                == v.threads[j],
        i < MAX_THREADS ==> match v.threads[i as int] {
            Some(t) => v.with_state(i, state).threads[i as int] == Some(
                if t.state == ThreadState::Exited {
                    t
                } else {
                    Thread { state, ..t }
                },
            ),
            None => v.with_state(i, state).threads[i as int] is None,
        },
{
}

/// A tick is counted, and takes one from what is left of the quantum. When the
/// last of it goes, somebody else runs, if anybody can, and the quantum starts
/// over; at the limit the boot context runs. Otherwise whoever runs goes on.
pub proof fn law_a_quantum_is_that_many_ticks(v: SchedView)
    requires
        v.wf(),
        v.ticks < u64::MAX,
        v.switches < u64::MAX,
    ensures
        v.after_tick().ticks == v.ticks + 1,
        v.after_tick().tick_limit == v.tick_limit,
        v.after_tick().quantum_reset == v.quantum_reset,
        v.tick_limit != 0 && v.ticks + 1 >= v.tick_limit ==> {
            &&& v.after_tick().current is None
            &&& v.after_tick().switches == v.switches + 1
        },
        (v.tick_limit == 0 || v.ticks + 1 < v.tick_limit) && v.quantum > 1 ==> {
            &&& v.after_tick().quantum == v.quantum - 1
            &&& v.after_tick().current == v.current
            &&& v.after_tick().switches == v.switches
            &&& v.after_tick().threads == v.threads
            &&& v.after_tick().ready == v.ready
            &&& v.after_tick().cause == v.cause
        },
        (v.tick_limit == 0 || v.ticks + 1 < v.tick_limit) && v.quantum <= 1 ==> {
            &&& v.after_tick().quantum == v.quantum_reset
            &&& v.next() is Some ==> v.after_tick().current == v.next()
                && v.after_tick().switches == v.switches + 1
            &&& v.next() is None ==> v.after_tick().current == v.current
                && v.after_tick().switches == v.switches && v.after_tick().threads == v.threads
        },
{
    assert(v.dispatchable() =~= v.ticked().dispatchable());
}

/// Whoever is preempted can run again: it is ready, in the queue, and otherwise
/// as it was.
pub proof fn law_a_preempted_thread_stays_runnable(v: SchedView, running: usize)
    requires
        v.wf(),
        v.ticks < u64::MAX,
        v.switches < u64::MAX,
        v.current == Some(running),
        v.threads[running as int]->0.state != ThreadState::Exited,
        v.ready.len() < MAX_THREADS,
        !v.ready.contains(running),
        v.after_tick().current != Some(running),
    ensures
        v.after_tick().ready.len() > 0,
        v.after_tick().ready.last() == running,
        v.after_tick().threads[running as int] == Some(
            Thread { state: ThreadState::Ready, ..v.threads[running as int]->0 },
        ),
{
    let t = v.ticked();
    assert(v.dispatchable() =~= t.dispatchable());
    slots::lemma_first(v.ready, v.dispatchable());
    if v.pick() < v.ready.len() {
        assert(v.ready.contains(v.ready[v.pick()]));
    }
}

/// A thread that is added keeps everything it came with but its state and its
/// cause, takes a slot nobody had, and waits behind everyone.
pub proof fn law_an_added_thread_is_last_in_line(v: SchedView, thread: Thread, correlation: u64)
    requires
        v.wf(),
        v.ready.len() < MAX_THREADS,
        exists|k: int| 0 <= k < MAX_THREADS && #[trigger] v.threads[k] is None,
    ensures
        ({
            let w = v.added(thread, correlation);
            exists|k: int|
                {
                    &&& 0 <= k < MAX_THREADS
                    &&& v.threads[k] is None
                    &&& #[trigger] w.threads[k] matches Some(t)
                    &&& t.id == thread.id && t.priority == thread.priority
                    &&& t.state == ThreadState::Ready && t.correlation == correlation
                    &&& t.process == thread.process && t.recv_deadline == thread.recv_deadline
                    &&& t.kernel_stack_base == thread.kernel_stack_base
                    &&& t.kernel_stack_top == thread.kernel_stack_top
                    &&& t.space_root == thread.space_root
                    &&& w.ready == v.ready.push(k as usize)
                    &&& forall|j: int|
                        0 <= j < MAX_THREADS && j != k ==> #[trigger] w.threads[j] == v.threads[j]
                    &&& forall|j: int| 0 <= j < k ==> #[trigger] v.threads[j] is Some
                }
        }),
        v.added(thread, correlation).current == v.current,
        v.added(thread, correlation).switches == v.switches,
        v.added(thread, correlation).cause == v.cause,
{
    slots::lemma_first(v.threads, slots::free::<Thread>());
    let k = choose|k: int| 0 <= k < MAX_THREADS && #[trigger] v.threads[k] is None;
    let n = v.vacancy();
    if n == MAX_THREADS {
        assert(!slots::free::<Thread>()(v.threads[k]));
    }
    assert(slots::free::<Thread>()(v.threads[n]));
    let w = v.added(thread, correlation);
    assert forall|j: int| 0 <= j < n implies #[trigger] v.threads[j] is Some by {
        assert(!slots::free::<Thread>()(v.threads[j]));
    }
    assert(w.threads[n] is Some);
}

/// A thread's priority, cause and deadline are set one at a time: the rest of
/// the thread and every other thread stay as they are.
pub proof fn law_setting_one_thing_sets_one_thing(
    v: SchedView,
    i: usize,
    priority: u8,
    correlation: u64,
    deadline: Option<u64>,
)
    requires
        v.wf(),
        i < MAX_THREADS,
        v.threads[i as int] is Some,
    ensures
        v.with_priority(i, priority) == (SchedView {
            threads: v.with_priority(i, priority).threads,
            ..v
        }),
        v.with_priority(i, priority).threads == v.threads.update(
            i as int,
            Some(Thread { priority, ..v.threads[i as int]->0 }),
        ),
        v.with_correlation(i, correlation).threads == v.threads.update(
            i as int,
            Some(Thread { correlation, ..v.threads[i as int]->0 }),
        ),
        v.with_correlation(i, correlation).ready == v.ready,
        v.with_correlation(i, correlation).current == v.current,
        v.with_correlation(i, correlation).switches == v.switches,
        v.with_correlation(i, correlation).cause == (if v.current == Some(i) {
            correlation
        } else {
            v.cause
        }),
        v.with_deadline(i, deadline) == (SchedView {
            threads: v.with_deadline(i, deadline).threads,
            ..v
        }),
        v.with_deadline(i, deadline).threads == v.threads.update(
            i as int,
            Some(Thread { recv_deadline: deadline, ..v.threads[i as int]->0 }),
        ),
{
}

/// A run begins with a whole quantum, at the front of the queue.
pub proof fn law_a_run_begins_afresh(v: SchedView)
    requires
        v.wf(),
        v.switches < u64::MAX,
    ensures
        v.next() is Some ==> {
            &&& v.ran().current == v.next()
            &&& v.ran().quantum == v.quantum_reset
            &&& v.ran().switches == v.switches + 1
            &&& v.ran().ready == v.popped().ready
        },
        v.next() is None ==> {
            &&& v.ran().current == v.current
            &&& v.ran().switches == v.switches
            &&& v.ran().threads == v.threads
        },
        v.ran().ticks == v.ticks,
{
}

/// A new scheduler runs nothing, knows nobody and has counted nothing. Its
/// quantum is what was asked, and never nothing.
pub proof fn law_a_new_scheduler_is_idle(quantum: u32, tick_limit: u64)
    ensures
        ({
            let v = SchedView::fresh(quantum, tick_limit);
            &&& v.wf()
            &&& v.current is None && v.ready.len() == 0
            &&& v.threads.len() == MAX_THREADS
            &&& forall|k: int| 0 <= k < MAX_THREADS ==> #[trigger] v.threads[k] is None
            &&& v.ticks == 0 && v.switches == 0 && v.cause == 0
            &&& v.tick_limit == tick_limit
            &&& v.quantum == v.quantum_reset
            &&& quantum > 0 ==> v.quantum == quantum
            &&& quantum == 0 ==> v.quantum == 1
        }),
{
}

/// A thread is found by its identity: the slot that is answered holds it, alive,
/// and no slot before it does; the end means that no slot does.
pub proof fn law_a_thread_is_found_by_its_identity(v: SchedView, id: ThreadId)
    requires
        v.wf(),
    ensures
        0 <= v.slot_of(id) <= MAX_THREADS,
        v.slot_of(id) < MAX_THREADS ==> (v.threads[v.slot_of(id)] matches Some(t) && t.id == id
            && t.state != ThreadState::Exited),
        forall|j: int|
            0 <= j < v.slot_of(id) ==> (#[trigger] v.threads[j] matches Some(t) ==> t.id != id
                || t.state == ThreadState::Exited),
        0 <= v.place_of(id) <= MAX_THREADS,
        v.place_of(id) < MAX_THREADS ==> (v.threads[v.place_of(id)] matches Some(t) && t.id == id),
        forall|j: int|
            0 <= j < v.place_of(id) ==> (#[trigger] v.threads[j] matches Some(t) ==> t.id != id),
{
    slots::lemma_first(v.threads, live_as(id));
    slots::lemma_first(v.threads, known_as(id));
    assert forall|j: int|
        0 <= j < v.slot_of(id) implies (#[trigger] v.threads[j] matches Some(t) ==> t.id != id
        || t.state == ThreadState::Exited) by {
        assert(!live_as(id)(v.threads[j]));
    }
    assert forall|j: int|
        0 <= j < v.place_of(id) implies (#[trigger] v.threads[j] matches Some(t) ==> t.id != id) by {
        assert(!known_as(id)(v.threads[j]));
    }
}

} // verus!
