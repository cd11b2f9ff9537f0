//! Page-ins through the executive: asking a pager for a page as an ordinary
//! call, giving up on the ones that can no longer be answered, and the loop
//! that runs a CPU until nothing is runnable.
use vstd::prelude::*;
use crate::config::{MAX_CPUS, MAX_PAGERS, MAX_THREADS};
use crate::error::KError;
use crate::exec::messaging::{call_step, peer_of, resume_step, CallStep, PendingCall};
use crate::exec::ports::lemma_woken_frame;
use crate::exec::{ExecView, Executive, MachineView, PageInFlight, Posted};
use crate::ipc::{EndpointId, Message};
use crate::memory::{MemoryObjectView, MemoryView};
use crate::object::ObjectId;
use crate::occupancy::Site;
use crate::pager::{server, GraphView, MissOutcome, PageInResult};
use crate::port::drained_by_someone;
use crate::sched::{SchedView, Switch};
use crate::slots;
use crate::thread::{Thread, ThreadId, ThreadState};

verus! {

/// A page-in that was given up on.
#[derive(Clone, Copy, PartialEq, Eq, Debug, Structural)]
pub struct StalledPageIn {
    pub object: ObjectId,
    pub offset: u64,
    pub faulter: ThreadId,
    /// Whether this miss asks for its pager to be restarted.
    pub escalated: bool,
}

/// The predicate of a page-in that `faulter` waits for.
pub open spec fn waited_by(faulter: ThreadId) -> spec_fn(Option<PageInFlight>) -> bool {
    |o: Option<PageInFlight>| o matches Some(f) && f.faulter == faulter
}

/// The predicate of a thread parked past its receive deadline.
pub open spec fn overdue(now: u64) -> spec_fn(Option<Thread>) -> bool {
    |o: Option<Thread>|
        o matches Some(t) && t.state == ThreadState::Blocked && (t.recv_deadline matches Some(at)
            && now >= at)
}

/// The identities of the threads parked past their receive deadline, in slot
/// order.
pub open spec fn overdue_ids(threads: Seq<Option<Thread>>, now: u64) -> Seq<ThreadId>
    decreases threads.len(),
{
    if threads.len() == 0 {
        Seq::empty()
    } else {
        let before = overdue_ids(threads.drop_last(), now);
        if overdue(now)(threads.last()) {
            before.push(threads.last()->0.id)
        } else {
            before
        }
    }
}

/// The predicate of a wakeup for another CPU than `cpu`.
pub open spec fn not_for(cpu: u32) -> spec_fn(Posted) -> bool {
    |p: Posted| p.cpu != cpu
}

/// The scheduler of `cpu` after it acts on the first `n` of `posted`: a slot
/// that no longer holds the thread is left alone.
pub open spec fn acted_on(s: SchedView, cpu: u32, posted: Seq<Posted>, n: int) -> SchedView
    decreases n,
{
    if n <= 0 {
        s
    } else {
        let t = acted_on(s, cpu, posted, n - 1);
        let p = posted[n - 1];
        if p.cpu == cpu && (t.thread(p.slot) matches Some(h) && h.id == p.id && h.state
            != ThreadState::Exited) {
            t.unblocked(p.slot)
        } else {
            t
        }
    }
}

impl ExecView {
    /// With the record of page-ins in flight replaced.
    pub open spec fn with_page_ins(self, page_ins: Seq<Option<PageInFlight>>) -> ExecView {
        ExecView { machine: MachineView { page_ins, ..self.machine }, ..self }
    }

    /// With the memory table replaced.
    pub open spec fn with_memory(self, memory: MemoryView) -> ExecView {
        ExecView { machine: MachineView { memory, ..self.machine }, ..self }
    }

    /// With the waits-for graph replaced.
    pub open spec fn with_paging(self, paging: GraphView) -> ExecView {
        ExecView { machine: MachineView { paging, ..self.machine }, ..self }
    }

    /// The first free place for a page-in, or the capacity.
    pub open spec fn page_in_vacancy(self) -> int {
        slots::first(self.machine.page_ins, slots::free::<PageInFlight>())
    }

    /// With a page-in recorded, if there is room.
    pub open spec fn page_in_begun(self, f: PageInFlight) -> ExecView {
        self.with_page_ins(self.machine.page_ins.update(self.page_in_vacancy(), Some(f)))
    }

    /// With every record of a page-in of `faulter` cleared.
    pub open spec fn page_in_ended(self, faulter: ThreadId) -> ExecView {
        self.with_page_ins(crate::process::swept(self.machine.page_ins, waited_by(faulter)))
    }

    /// With the page-in at place `i` given up on: its call aborted, its object
    /// faulted, its faulter told, the miss counted, and the faulter woken.
    pub open spec fn page_in_failed(self, cpu: u32, i: int) -> ExecView {
        let f = self.machine.page_ins[i]->0;
        let a = self.with_page_ins(self.machine.page_ins.update(i, None)).call_aborted(f.from);
        let m = a.with_memory(
            match a.machine.memory.find(f.object) {
                Some(o) => a.machine.memory.with(
                    f.object,
                    MemoryObjectView { faulted: true, ..o },
                ),
                None => a.machine.memory,
            },
        );
        let free = slots::first(m.machine.expired_callers, slots::free::<ThreadId>());
        ExecView {
            machine: MachineView {
                expired_callers: if free < m.machine.expired_callers.len() {
                    m.machine.expired_callers.update(free, Some(f.faulter))
                } else {
                    m.machine.expired_callers
                },
                page_in_supervisor: m.machine.page_in_supervisor.missed(),
                ..m.machine
            },
            ..m
        }.woken(cpu, f.faulter)
    }

    /// What is reported of giving up on the page-in at place `i`.
    pub open spec fn stall_record(self, i: int) -> StalledPageIn {
        let f = self.machine.page_ins[i]->0;
        StalledPageIn {
            object: f.object,
            offset: f.offset,
            faulter: f.faulter,
            escalated: self.machine.page_in_supervisor.escalates(),
        }
    }

    /// With every page-in among the first `k` places given up on, and which
    /// they were.
    pub open spec fn stalled(self, cpu: u32, k: int) -> (ExecView, Seq<StalledPageIn>)
        decreases k,
    {
        if k <= 0 {
            (self, Seq::empty())
        } else {
            let (v, list) = self.stalled(cpu, k - 1);
            if v.machine.page_ins[k - 1] is Some {
                (v.page_in_failed(cpu, k - 1), list.push(v.stall_record(k - 1)))
            } else {
                (v, list)
            }
        }
    }

    /// With the wakeups posted for `cpu` acted on and taken out of the box.
    pub open spec fn drained(self, cpu: u32) -> ExecView {
        let posted = self.machine.posted;
        let v = self.with_sched(
            cpu,
            acted_on(self.sched(cpu), cpu, posted, posted.len() as int),
        );
        ExecView {
            machine: MachineView { posted: posted.filter(not_for(cpu)), ..v.machine },
            ..v
        }
    }
}

/// A page-in whose caller is parked.
#[derive(Clone, Copy, PartialEq, Eq, Debug, Structural)]
pub struct PendingService {
    pub call: PendingCall,
    pub faulter: ThreadId,
}

/// What asking a service comes to.
#[derive(Clone, Copy, PartialEq, Eq, Debug, Structural)]
pub enum ServiceStep {
    Refused(KError),
    Parked(PendingService, Switch),
}

impl Executive {
    /// Records a page-in about to be sent, so it can be failed if the answer
    /// never comes. [`KError::LimitExceeded`] when too many are outstanding.
    pub fn page_in_started(
        &mut self,
        faulter: ThreadId,
        from: EndpointId,
        object: ObjectId,
        offset: u64,
    ) -> (r: Result<(), KError>)
        requires
            old(self).wf(),
            from.side < 2,
        ensures
            final(self).wf(),
            match r {
                Ok(_) => {
                    &&& old(self)@.page_in_vacancy() < MAX_PAGERS
                    &&& final(self)@ == old(self)@.page_in_begun(
                        PageInFlight { faulter, from, object, offset },
                    )
                },
                Err(e) => {
                    &&& e == KError::LimitExceeded
                    &&& old(self)@.page_in_vacancy() == MAX_PAGERS
                    &&& final(self)@ == old(self)@
                },
            },
    {
        match slots::find_free(&self.machine.page_ins) {
            None => Err(KError::LimitExceeded),
            Some(slot) => {
                let f = PageInFlight { faulter, from, object, offset };
                self.machine.page_ins[slot] = Some(f);
                assert(self@ =~= old(self)@.page_in_begun(f));
                Ok(())
            },
        }
    }

    /// Clears the record of a page-in that finished, however it finished.
    pub fn page_in_finished(&mut self, faulter: ThreadId)
        requires
            old(self).wf(),
        ensures
            final(self).wf(),
            final(self)@ == old(self)@.page_in_ended(faulter),
    {
        let ghost v = self@;
        let ghost before = v.machine.page_ins;
        let ghost p = waited_by(faulter);
        let mut i: usize = 0;
        while i < MAX_PAGERS
            invariant
                self.wf(),
                p == waited_by(faulter),
                before == v.machine.page_ins,
                before.len() == MAX_PAGERS,
                i <= MAX_PAGERS,
                self@ == v.with_page_ins(self.machine.page_ins@),
                forall|j: int|
                    0 <= j < MAX_PAGERS ==> #[trigger] self.machine.page_ins@[j] == (if j < i
                        && p(before[j]) {
                        None
                    } else {
                        before[j]
                    }),
            decreases MAX_PAGERS - i,
        {
            assert(self.machine.page_ins@[i as int] == before[i as int]);
            if let Some(f) = self.machine.page_ins[i] {
                if f.faulter == faulter {
                    self.machine.page_ins[i] = None;
                    assert(self@ =~= v.with_page_ins(self.machine.page_ins@));
                }
            }
            i += 1;
        }
        assert(self.machine.page_ins@ =~= crate::process::swept(before, p));
    }

    /// Calls the service listening on `endpoint` from the kernel's own side of
    /// that channel, for the page of `object` at `offset`. The caller is parked
    /// until the service replies and finishes with
    /// [`call_service_resume`](Self::call_service_resume).
    pub fn call_service(
        &mut self,
        cpu: u32,
        endpoint: EndpointId,
        request: Message,
        object: ObjectId,
        offset: u64,
    ) -> (r: ServiceStep)
        requires
            old(self).wf(),
            endpoint.side < 2,
            request.wf(),
            old(self)@.can_switch(cpu),
            old(self)@.local(cpu).next_txn < u64::MAX,
        ensures
            final(self).wf(),
            ({
                let v = old(self)@;
                match v.running_id(cpu) {
                    None => r == ServiceStep::Refused(KError::BadHandle) && final(self)@ == v,
                    Some(faulter) => if v.page_in_vacancy() == MAX_PAGERS {
                        r == ServiceStep::Refused(KError::LimitExceeded) && final(self)@ == v
                    } else {
                        let from = endpoint.peer();
                        let b = v.page_in_begun(PageInFlight { faulter, from, object, offset });
                        exists|w: ExecView, step: CallStep|
                            {
                                &&& #[trigger] call_step(
                                    b.entered(cpu, Site::Call),
                                    w,
                                    cpu,
                                    from,
                                    request@,
                                    step,
                                )
                                &&& match step {
                                    CallStep::Refused(e) => {
                                        &&& r == ServiceStep::Refused(e)
                                        &&& final(self)@ == w.page_in_ended(faulter)
                                    },
                                    CallStep::Parked(call, s) => {
                                        &&& r == ServiceStep::Parked(
                                            PendingService { call, faulter },
                                            s,
                                        )
                                        &&& final(self)@ == w
                                    },
                                }
                            }
                    },
                }
            }),
    {
        let from = peer_of(endpoint);
        let faulter: ThreadId = match self.current_id(cpu) {
            None => {
                return ServiceStep::Refused(KError::BadHandle);
            },
            Some(id) => id,
        };
        let ghost m = request@;
        if let Err(e) = self.page_in_started(faulter, from, object, offset) {
            return ServiceStep::Refused(e);
        }
        let ghost b = self@;
        let step = self.call(cpu, from, request);
        assert(call_step(b.entered(cpu, Site::Call), self@, cpu, from, m, step));
        match step {
            CallStep::Refused(e) => {
                self.page_in_finished(faulter);
                ServiceStep::Refused(e)
            },
            CallStep::Parked(call, s) => ServiceStep::Parked(PendingService { call, faulter }, s),
        }
    }

    /// Finishes a call of a service when its caller runs again.
    pub fn call_service_resume(&mut self, cpu: u32, pending: PendingService) -> (r: Result<
        Message,
        KError,
    >)
        requires
            old(self).wf(),
            pending.call.from.side < 2,
            pending.call.caller < MAX_THREADS,
            pending.call.callee matches Some(i) ==> i < MAX_THREADS,
            old(self)@.local(cpu).sync_depth[pending.call.caller as int] > 0,
        ensures
            final(self).wf(),
            r matches Ok(m) ==> m.wf(),
            exists|w: ExecView|
                {
                    &&& #[trigger] resume_step(old(self)@, w, cpu, pending.call, r)
                    &&& final(self)@ == w.page_in_ended(pending.faulter)
                },
    {
        let r = self.call_resume(cpu, pending.call);
        assert(resume_step(old(self)@, self@, cpu, pending.call, r));
        self.page_in_finished(pending.faulter);
        r
    }

    /// Wakes every blocked receiver whose deadline has passed. The receive it was
    /// parked in checks its own deadline again.
    pub fn expire_timed_out_receivers(&mut self, cpu: u32, now: u64) -> (n: usize)
        requires
            old(self).wf(),
        ensures
            final(self).wf(),
            ({
                let ids = overdue_ids(old(self)@.sched(cpu).threads, now);
                n == ids.len() && final(self)@ == old(self)@.woken_all(cpu, ids)
            }),
    {
        let ghost v = self@;
        let ghost threads = v.sched(cpu).threads;
        let mut ids: Vec<ThreadId> = Vec::new();
        let mut i: usize = 0;
        assert(overdue_ids(threads.take(0), now) =~= Seq::<ThreadId>::empty());
        while i < MAX_THREADS
            invariant
                self.wf(),
                self@ == v,
                threads == v.sched(cpu).threads,
                threads.len() == MAX_THREADS,
                i <= MAX_THREADS,
                ids@ == overdue_ids(threads.take(i as int), now),
            decreases MAX_THREADS - i,
        {
            proof {
                assert(threads.take(i + 1).drop_last() =~= threads.take(i as int));
                assert(threads.take(i + 1).last() == threads[i as int]);
            }
            if let Some(t) = self.scheduler(cpu).thread_at(i) {
                if t.state == ThreadState::Blocked {
                    if let Some(at) = t.recv_deadline {
                        if now >= at {
                            ids.push(t.id);
                        }
                    }
                }
            }
            i += 1;
        }
        assert(threads.take(i as int) =~= threads);
        let mut k: usize = 0;
        assert(ids@.take(0) =~= Seq::<ThreadId>::empty());
        while k < ids.len()
            invariant
                self.wf(),
                k <= ids@.len(),
                self@ == v.woken_all(cpu, ids@.take(k as int)),
            decreases ids@.len() - k,
        {
            let _ = self.wake_thread(cpu, ids[k]);
            proof {
                assert(ids@.take(k + 1).drop_last() =~= ids@.take(k as int));
                assert(ids@.take(k + 1).last() == ids@[k as int]);
            }
            k += 1;
        }
        assert(ids@.take(k as int) =~= ids@);
        k
    }

    /// Fails every page-in that is still in flight, and returns which. Called
    /// when nothing is runnable: the answer would have to come from a thread
    /// that is not going to run again.
    pub fn expire_stalled_page_ins(&mut self, cpu: u32) -> (out: Vec<StalledPageIn>)
        requires
            old(self).wf(),
            old(self)@.machine.page_in_supervisor.misses <= u32::MAX - MAX_PAGERS,
        ensures
            final(self).wf(),
            final(self)@ == old(self)@.stalled(cpu, MAX_PAGERS as int).0,
            out@ == old(self)@.stalled(cpu, MAX_PAGERS as int).1,
    {
        let ghost v = self@;
        let mut out: Vec<StalledPageIn> = Vec::new();
        let mut i: usize = 0;
        while i < MAX_PAGERS
            invariant
                self.wf(),
                v == old(self)@,
                v.machine.page_in_supervisor.misses <= u32::MAX - MAX_PAGERS,
                i <= MAX_PAGERS,
                self@ == v.stalled(cpu, i as int).0,
                out@ == v.stalled(cpu, i as int).1,
                self@.machine.page_in_supervisor.misses <= v.machine.page_in_supervisor.misses + i,
            decreases MAX_PAGERS - i,
        {
            let ghost w = self@;
            if let Some(f) = self.machine.page_ins[i] {
                self.machine.page_ins[i] = None;
                let ghost a = w.with_page_ins(w.machine.page_ins.update(i as int, None));
                assert(self@ =~= a);
                self.end_abort(f.from);
                let ghost a = self@;
                self.machine.memory.set_faulted(f.object);
                assert(self@ =~= a.with_memory(self.machine.memory@));
                let ghost m = self@;
                if let Some(slot) = slots::find_free(&self.machine.expired_callers) {
                    self.machine.expired_callers[slot] = Some(f.faulter);
                }
                let escalated: bool = matches!(
                    self.machine.page_in_supervisor.record_miss(),
                    MissOutcome::Escalate
                );
                out.push(
                    StalledPageIn {
                        object: f.object,
                        offset: f.offset,
                        faulter: f.faulter,
                        escalated,
                    },
                );
                let ghost s = self@;
                proof {
                    let free = slots::first(
                        m.machine.expired_callers,
                        slots::free::<ThreadId>(),
                    );
                    assert(s =~= ExecView {
                        machine: MachineView {
                            expired_callers: if free < m.machine.expired_callers.len() {
                                m.machine.expired_callers.update(free, Some(f.faulter))
                            } else {
                                m.machine.expired_callers
                            },
                            page_in_supervisor: m.machine.page_in_supervisor.missed(),
                            ..m.machine
                        },
                        ..m
                    });
                    lemma_woken_frame(s, cpu, f.faulter);
                }
                let _ = self.wake_thread(cpu, f.faulter);
            }
            i += 1;
        }
        out
    }

    /// Acts on the wakeups other CPUs posted for threads of `cpu`.
    pub fn drain_wakeups(&mut self, cpu: u32)
        requires
            old(self).wf(),
        ensures
            final(self).wf(),
            final(self)@ == old(self)@.drained(cpu),
    {
        let ghost v = self@;
        let ghost posted = v.machine.posted;
        let ghost p = not_for(cpu);
        let mut rest: Vec<Posted> = Vec::new();
        let mut i: usize = 0;
        proof {
            assert(posted.take(0).filter(p) =~= Seq::<Posted>::empty()) by {
                reveal(Seq::filter);
            }
            assert(v.with_sched(cpu, v.sched(cpu)) =~= v);
        }
        while i < self.machine.posted.len()
            invariant
                self.wf(),
                posted == v.machine.posted,
                p == not_for(cpu),
                v.cpus.len() == MAX_CPUS,
                self@ == v.with_sched(cpu, acted_on(v.sched(cpu), cpu, posted, i as int)),
                i <= posted.len(),
                rest@ == posted.take(i as int).filter(p),
            decreases posted.len() - i,
        {
            let w: Posted = self.machine.posted[i];
            proof {
                assert(posted.take(i + 1) =~= posted.take(i as int).push(w));
                posted.take(i as int).lemma_filter_push(w, p);
            }
            if w.cpu == cpu {
                let _ = self.scheduler_at(cpu).unblock_thread(w.slot, w.id);
                assert(self@ =~= v.with_sched(
                    cpu,
                    acted_on(v.sched(cpu), cpu, posted, i + 1),
                ));
            } else {
                rest.push(w);
            }
            i += 1;
        }
        assert(posted.take(i as int) =~= posted);
        self.machine.posted = rest;
        assert(self@ =~= v.drained(cpu));
    }

    /// Starts a pass of the run loop: late receivers are woken, posted wakeups
    /// acted on, and the first ready thread switched to. `None` when nothing is
    /// ready.
    pub fn run(&mut self, cpu: u32, now: u64) -> (r: Option<Switch>)
        requires
            old(self).wf(),
            old(self)@.can_switch(cpu),
        ensures
            final(self).wf(),
            ({
                let ids = overdue_ids(old(self)@.sched(cpu).threads, now);
                let v = old(self)@.woken_all(cpu, ids).drained(cpu);
                let s = v.sched(cpu);
                &&& final(self)@ == v.with_sched(cpu, s.ran())
                &&& r == match s.next() {
                    Some(first) => Some(s.switch(Some(first))),
                    None => None,
                }
            }),
    {
        let ghost v = self@;
        let _ = self.expire_timed_out_receivers(cpu, now);
        proof {
            crate::exec::ports::lemma_woken_all_frame(
                v,
                cpu,
                overdue_ids(v.sched(cpu).threads, now),
            );
        }
        let ghost w = self@;
        self.drain_wakeups(cpu);
        proof {
            lemma_acted_on_switches(
                w.sched(cpu),
                cpu,
                w.machine.posted,
                w.machine.posted.len() as int,
            );
        }
        self.scheduler_at(cpu).run()
    }

    /// Ends a pass of the run loop, when nothing is runnable any more: whether
    /// another pass is wanted. A thread parked on a port may still be woken from
    /// outside; otherwise every page-in in flight is failed and reported in
    /// `log`, and if there was one, its faulter runs in the next pass.
    pub fn run_again(&mut self, cpu: u32, log: &mut Vec<StalledPageIn>) -> (again: bool)
        requires
            old(self).wf(),
            old(self)@.machine.page_in_supervisor.misses <= u32::MAX - MAX_PAGERS,
        ensures
            final(self).wf(),
            if slots::any(old(self)@.machine.ports, drained_by_someone()) {
                !again && final(self)@ == old(self)@ && final(log)@ == old(log)@
            } else {
                let (v, list) = old(self)@.stalled(cpu, MAX_PAGERS as int);
                &&& final(self)@ == v
                &&& final(log)@ == old(log)@ + list
                &&& again == (list.len() > 0)
            },
    {
        if self.machine.ports.any_blocked_drainer() {
            return false;
        }
        let mut list: Vec<StalledPageIn> = self.expire_stalled_page_ins(cpu);
        let again: bool = list.len() > 0;
        log.append(&mut list);
        again
    }

    /// Deadline misses so far.
    pub fn page_in_misses(&self) -> (n: u32)
        ensures
            n == self@.machine.page_in_supervisor.misses,
    {
        self.machine.page_in_supervisor.misses()
    }

    /// Supervised-restart escalations so far.
    pub fn page_in_escalations(&self) -> (n: u32)
        ensures
            n == self@.machine.page_in_supervisor.escalations,
    {
        self.machine.page_in_supervisor.escalations()
    }

    /// Records that `object`'s pages come from `pager`, for the cycle guard.
    pub fn paging_bind(&mut self, object: ObjectId, pager: ObjectId) -> (r: Result<(), KError>)
        requires
            old(self).wf(),
        ensures
            final(self).wf(),
            ({
                let g = old(self)@.machine.paging;
                match r {
                    Ok(_) => {
                        &&& g.bindings.len() < MAX_PAGERS
                        &&& final(self)@ == old(self)@.with_paging(
                            GraphView {
                                bindings: g.bindings.push((object.0 as u64, pager.0)),
                                ..g
                            },
                        )
                    },
                    Err(e) => {
                        &&& e == KError::OutOfMemory
                        &&& g.bindings.len() == MAX_PAGERS
                        &&& final(self)@ == old(self)@
                    },
                }
            }),
    {
        let r = self.machine.paging.bind(object.raw() as u64, pager.raw());
        assert(self@ =~= old(self)@.with_paging(self.machine.paging@));
        r
    }

    /// Routes a page-in of `object` requested by `requester`, refusing the ones
    /// that would deadlock.
    pub fn paging_request(&mut self, requester: ObjectId, object: ObjectId) -> (r: PageInResult)
        requires
            old(self).wf(),
        ensures
            final(self).wf(),
            ({
                let g = old(self)@.machine.paging;
                if g.refuses(requester.0, object.0 as u64) {
                    r == PageInResult::Cycle && final(self)@ == old(self)@
                } else {
                    &&& r == PageInResult::Served
                    &&& final(self)@ == old(self)@.with_paging(
                        g.requested(requester.0, server(g.bindings, object.0 as u64)->0),
                    )
                }
            }),
    {
        let r = self.machine.paging.request_page_in(requester.raw(), object.raw() as u64);
        assert(self@ =~= old(self)@.with_paging(self.machine.paging@));
        r
    }

    /// Clears `requester`'s in-flight page-in edge, however it ended.
    pub fn paging_complete(&mut self, requester: ObjectId)
        requires
            old(self).wf(),
        ensures
            final(self).wf(),
            final(self)@ == old(self)@.with_paging(
                old(self)@.machine.paging.completed(requester.0),
            ),
    {
        self.machine.paging.complete(requester.raw());
        assert(self@ =~= old(self)@.with_paging(self.machine.paging@));
    }

    /// How many page-ins are in flight.
    pub fn paging_in_flight(&self) -> (n: usize)
        ensures
            n == self@.machine.paging.waits.len(),
    {
        self.machine.paging.in_flight()
    }
}

/// Acting on wakeups performs no switch.
pub proof fn lemma_acted_on_switches(s: SchedView, cpu: u32, posted: Seq<Posted>, n: int)
    ensures
        acted_on(s, cpu, posted, n).switches == s.switches,
    decreases n,
{
    if n > 0 {
        lemma_acted_on_switches(s, cpu, posted, n - 1);
    }
}

} // verus!
