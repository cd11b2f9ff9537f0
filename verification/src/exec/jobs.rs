//! Jobs through the executive: the containment tree, and killing a subtree
//! with everyone told in order.
use vstd::prelude::*;
use crate::config::{MAX_CPUS, MAX_THREADS};
use crate::error::KError;
use crate::exec::ports::{drainers, lemma_signalled_frame};
use crate::exec::{ExecView, Executive, MachineView};
use crate::job::{
    child_linked, child_made, job_at, job_vacancy, jobs_wf, marked, post_order, Job, JobId, JobLimits,
    JobView, JobsView, Member, MAX_JOBS, MAX_MEMBERS_PER_JOB, SIGNAL_EMPTY, SIGNAL_MEMBER_EXIT,
};
use crate::object::ObjectId;
use crate::rights::{subset, Rights};
use crate::sched::{live_as, SchedView};
use crate::slots;
use crate::thread::{ThreadId, ThreadState};

verus! {

impl ExecView {
    /// With the jobs replaced.
    pub open spec fn with_jobs(self, jobs: JobsView) -> ExecView {
        ExecView { machine: MachineView { jobs, ..self.machine }, ..self }
    }

    /// With thread `id`, if `cpu` has it alive, marked never to run again.
    pub open spec fn terminated(self, cpu: u32, id: ThreadId) -> ExecView {
        let s = self.sched(cpu);
        if s.slot_of(id) < MAX_THREADS {
            self.with_sched(cpu, s.with_state(s.slot_of(id) as usize, ThreadState::Exited))
        } else {
            self
        }
    }

    /// With thread `id` marked never to run again on the first `n` CPUs.
    pub open spec fn terminated_upto(self, id: ThreadId, n: int) -> ExecView
        decreases n,
    {
        if n <= 0 {
            self
        } else {
            self.terminated_upto(id, n - 1).terminated((n - 1) as u32, id)
        }
    }

    /// With thread `id` marked never to run again, whichever CPU has it.
    pub open spec fn ended(self, id: ThreadId) -> ExecView {
        self.terminated_upto(id, MAX_CPUS as int)
    }

    /// With the first `n` members killed in order: each one's thread
    /// terminated on every CPU, and its exit signalled on `source`.
    pub open spec fn members_killed(
        self,
        cpu: u32,
        source: u64,
        members: Seq<Option<Member>>,
        n: int,
    ) -> ExecView
        decreases n,
    {
        if n <= 0 {
            self
        } else {
            let v = self.members_killed(cpu, source, members, n - 1);
            match members[n - 1] {
                Some(m) => v.ended(m.thread).signalled(
                    cpu,
                    source,
                    SIGNAL_MEMBER_EXIT,
                    1,
                ),
                None => v,
            }
        }
    }

    /// With the first `n` jobs of `order` killed: its members, then its
    /// emptiness signalled.
    pub open spec fn jobs_killed(self, cpu: u32, jobs: JobsView, order: Seq<JobId>, n: int) -> ExecView
        decreases n,
    {
        if n <= 0 {
            self
        } else {
            let v = self.jobs_killed(cpu, jobs, order, n - 1);
            let j = jobs[order[n - 1].0 as int]->0;
            v.members_killed(cpu, j.state_source, j.members, j.members.len() as int).signalled(
                cpu,
                j.state_source,
                SIGNAL_EMPTY,
                1,
            )
        }
    }
}

/// The processes among the first `n` members, in order.
pub open spec fn processes_of(members: Seq<Option<Member>>, n: int) -> Seq<ObjectId>
    decreases n,
{
    if n <= 0 {
        Seq::empty()
    } else {
        let before = processes_of(members, n - 1);
        match members[n - 1] {
            Some(m) => before.push(m.process),
            None => before,
        }
    }
}

/// The member processes of the first `n` jobs of `order`, in the order they are
/// killed.
pub open spec fn victims(jobs: JobsView, order: Seq<JobId>, n: int) -> Seq<ObjectId>
    decreases n,
{
    if n <= 0 {
        Seq::empty()
    } else {
        let members = jobs[order[n - 1].0 as int]->0.members;
        victims(jobs, order, n - 1) + processes_of(members, members.len() as int)
    }
}

/// `out` names the victims from its front, as many as it has room for.
pub open spec fn named(
    before: Seq<Option<ObjectId>>,
    out: Seq<Option<ObjectId>>,
    list: Seq<ObjectId>,
) -> bool {
    &&& out.len() == before.len()
    &&& forall|i: int|
        0 <= i < out.len() ==> #[trigger] out[i] == (if i < list.len() {
            Some(list[i])
        } else {
            before[i]
        })
}

/// Ending a thread changes nothing but schedulers.
proof fn lemma_ended_frame(v: ExecView, id: ThreadId, n: int)
    requires
        v.cpus.len() == MAX_CPUS,
    ensures
        v.terminated_upto(id, n).cpus.len() == MAX_CPUS,
        v.terminated_upto(id, n).machine == v.machine,
    decreases n,
{
    if n > 0 {
        lemma_ended_frame(v, id, n - 1);
    }
}

/// Killing members touches only the ports, the wakeup box and the scheduler.
proof fn lemma_members_killed_frame(
    v: ExecView,
    cpu: u32,
    source: u64,
    members: Seq<Option<Member>>,
    n: int,
)
    requires
        v.cpus.len() == MAX_CPUS,
    ensures
        v.members_killed(cpu, source, members, n).cpus.len() == MAX_CPUS,
        v.members_killed(cpu, source, members, n).machine.jobs == v.machine.jobs,
    decreases n,
{
    if n > 0 {
        lemma_members_killed_frame(v, cpu, source, members, n - 1);
        if let Some(m) = members[n - 1] {
            let u = v.members_killed(cpu, source, members, n - 1);
            lemma_ended_frame(u, m.thread, MAX_CPUS as int);
            lemma_signalled_frame(
                u.ended(m.thread),
                cpu,
                source,
                SIGNAL_MEMBER_EXIT,
                1,
            );
        }
    }
}

impl Executive {
    /// Creates a root job (boot authority; no right required).
    pub fn job_create_root(&mut self, object: ObjectId, limits: JobLimits) -> (r: Result<
        JobId,
        KError,
    >)
        requires
            old(self).wf(),
        ensures
            final(self).wf(),
            ({
                let t = old(self)@.machine.jobs;
                match r {
                    Ok(id) => {
                        &&& id.0 == job_vacancy(t)
                        &&& id.0 < MAX_JOBS
                        &&& final(self)@ == old(self)@.with_jobs(
                            t.update(id.0 as int, Some(JobView::fresh(object, None, limits))),
                        )
                    },
                    Err(e) => {
                        &&& e == KError::OutOfMemory
                        &&& job_vacancy(t) == MAX_JOBS
                        &&& final(self)@ == old(self)@
                    },
                }
            }),
    {
        let r = self.machine.jobs.create_root(object, limits);
        assert(self@ =~= old(self)@.with_jobs(self.machine.jobs@));
        r
    }

    /// Creates a child job under `parent` (needs `CREATE_JOB`; tighten-only).
    pub fn job_create_child(
        &mut self,
        parent: JobId,
        object: ObjectId,
        limits: JobLimits,
        rights: Rights,
    ) -> (r: Result<JobId, KError>)
        requires
            old(self).wf(),
        ensures
            final(self).wf(),
            ({
                let t = old(self)@.machine.jobs;
                match r {
                    Ok(id) => {
                        &&& subset(Rights::CREATE_JOB, rights@)
                        &&& job_at(t, parent) matches Some(p)
                        &&& !p.killed
                        &&& limits.max_processes <= p.limits.max_processes
                        &&& id.0 == job_vacancy(t)
                        &&& final(self)@ == old(self)@.with_jobs(
                            child_linked(t, parent, object, limits),
                        )
                    },
                    Err(e) => if !subset(Rights::CREATE_JOB, rights@) {
                        e == KError::AccessDenied && final(self)@ == old(self)@
                    } else {
                        match job_at(t, parent) {
                            None => e == KError::BadHandle && final(self)@ == old(self)@,
                            Some(p) => if p.killed {
                                e == KError::BadHandle && final(self)@ == old(self)@
                            } else if limits.max_processes > p.limits.max_processes {
                                e == KError::LimitExceeded && final(self)@ == old(self)@
                            } else if job_vacancy(t) == MAX_JOBS {
                                e == KError::OutOfMemory && final(self)@ == old(self)@
                            } else {
                                &&& e == KError::OutOfMemory
                                &&& p.child_vacancy() == p.children.len()
                                &&& final(self)@ == old(self)@.with_jobs(
                                    child_made(t, parent, object, limits),
                                )
                            },
                        }
                    },
                }
            }),
    {
        let ghost t = self@.machine.jobs;
        proof {
            if job_at(t, parent) is Some {
                assert(crate::job::node_wf(t, parent.0 as int));
            }
        }
        let r = self.machine.jobs.create_child(parent, object, limits, rights);
        assert(self@ =~= old(self)@.with_jobs(self.machine.jobs@));
        assert(old(self)@.with_jobs(t) =~= old(self)@);
        r
    }

    /// Reads a job (for its state source, member count, killed flag).
    pub fn job(&self, id: JobId) -> (r: Option<&Job>)
        requires
            self.wf(),
        ensures
            match r {
                Some(j) => job_at(self@.machine.jobs, id) == Some(j@),
                None => job_at(self@.machine.jobs, id) is None,
            },
    {
        self.machine.jobs.job(id)
    }

    /// Adds a member process (needs `CREATE_PROCESS`; enforces the count cap).
    pub fn job_add_process(&mut self, job: JobId, member: Member, rights: Rights) -> (r: Result<
        (),
        KError,
    >)
        requires
            old(self).wf(),
        ensures
            final(self).wf(),
            ({
                let t = old(self)@.machine.jobs;
                match r {
                    Ok(_) => {
                        &&& subset(Rights::CREATE_PROCESS, rights@)
                        &&& job_at(t, job) matches Some(j)
                        &&& !j.killed
                        &&& j.population() < j.limits.max_processes
                        &&& j.member_vacancy() < MAX_MEMBERS_PER_JOB
                        &&& final(self)@ == old(self)@.with_jobs(
                            t.update(
                                job.0 as int,
                                Some(
                                    JobView {
                                        members: j.members.update(
                                            j.member_vacancy(),
                                            Some(member),
                                        ),
                                        ..j
                                    },
                                ),
                            ),
                        )
                    },
                    Err(e) => {
                        &&& final(self)@ == old(self)@
                        &&& if !subset(Rights::CREATE_PROCESS, rights@) {
                            e == KError::AccessDenied
                        } else {
                            match job_at(t, job) {
                                None => e == KError::BadHandle,
                                Some(j) => if j.killed {
                                    e == KError::BadHandle
                                } else if j.population() >= j.limits.max_processes {
                                    e == KError::LimitExceeded
                                } else {
                                    e == KError::OutOfMemory && j.member_vacancy()
                                        == MAX_MEMBERS_PER_JOB
                                },
                            }
                        }
                    },
                }
            }),
    {
        let ghost t = self@.machine.jobs;
        let r = self.machine.jobs.add_process(job, member, rights);
        assert(self@ =~= old(self)@.with_jobs(self.machine.jobs@));
        assert(old(self)@.with_jobs(t) =~= old(self)@);
        r
    }

    /// Terminates the thread called `id`, whichever CPU has it.
    fn terminate_thread(&mut self, id: ThreadId)
        requires
            old(self).wf(),
        ensures
            final(self).wf(),
            final(self)@ == old(self)@.ended(id),
    {
        let ghost v = self@;
        let mut cpu: u32 = 0;
        while (cpu as usize) < MAX_CPUS
            invariant
                self.wf(),
                cpu <= MAX_CPUS,
                self@ == v.terminated_upto(id, cpu as int),
            decreases MAX_CPUS - cpu,
        {
            let at = self.scheduler(cpu).index_of(id);
            if let Some(i) = at {
                self.scheduler_at(cpu).terminate(i);
            }
            cpu += 1;
        }
    }

    /// Kills the `root` subtree (needs `KILL`): terminates every member thread,
    /// whichever CPU has it, and signals each job's state port with a member exit per member and
    /// emptiness once its members are gone, innermost first. The killed member
    /// processes are written to `killed_out`, as far as they fit, and the count
    /// returned. A member that had exited already still counts.
    pub fn job_kill(
        &mut self,
        cpu: u32,
        root: JobId,
        rights: Rights,
        killed_out: &mut [Option<ObjectId>],
    ) -> (r: Result<usize, KError>)
        requires
            old(self).wf(),
        ensures
            final(self).wf(),
            ({
                let v = old(self)@;
                let t = v.machine.jobs;
                let order = post_order(t, root.0 as int);
                let dead = victims(t, order, order.len() as int);
                match r {
                    Ok(n) => {
                        &&& subset(Rights::KILL, rights@)
                        &&& job_at(t, root) is Some
                        &&& n == dead.len()
                        &&& named(old(killed_out)@, final(killed_out)@, dead)
                        &&& final(self)@ == v.with_jobs(marked(t, order)).jobs_killed(
                            cpu,
                            t,
                            order,
                            order.len() as int,
                        )
                    },
                    Err(e) => {
                        &&& final(self)@ == v
                        &&& final(killed_out)@ == old(killed_out)@
                        &&& if !subset(Rights::KILL, rights@) {
                            e == KError::AccessDenied
                        } else {
                            e == KError::BadHandle && job_at(t, root) is None
                        }
                    },
                }
            }),
    {
        let ghost v = self@;
        let ghost t = v.machine.jobs;
        let ghost list = post_order(t, root.0 as int);
        let mut order: Vec<Option<JobId>> = vec![None; MAX_JOBS];
        proof {
            if job_at(t, root) is Some {
                crate::job::lemma_post_order_fits(t, root.0 as int);
            }
        }
        let ghost blank = order@;
        let count: usize = match self.machine.jobs.kill_order(
            root,
            rights,
            order.as_mut_slice(),
        ) {
            Err(e) => {
                assert(self@ =~= v);
                return Err(e);
            },
            Ok(n) => n,
        };
        let ghost m = v.with_jobs(marked(t, list));
        assert(self@ =~= m);
        let mut killed: usize = 0;
        let mut i: usize = 0;
        let ghost before = killed_out@;
        while i < count
            invariant
                self.wf(),
                jobs_wf(t),
                v.cpus.len() == MAX_CPUS,
                m.cpus.len() == MAX_CPUS,
                m.machine.jobs == marked(t, list),
                i <= count,
                count == list.len(),
                count <= MAX_JOBS,
                order@.len() == MAX_JOBS,
                forall|k: int| 0 <= k < count ==> #[trigger] order@[k] == Some(list[k]),
                forall|k: int|
                    0 <= k < count ==> (#[trigger] list[k]).0 < MAX_JOBS && t[list[k].0 as int] is Some,
                self@ == m.jobs_killed(cpu, t, list, i as int),
                self@.machine.jobs == marked(t, list),
                self@.cpus.len() == MAX_CPUS,
                killed == victims(t, list, i as int).len(),
                killed <= i * MAX_MEMBERS_PER_JOB,
                named(before, killed_out@, victims(t, list, i as int)),
            decreases count - i,
        {
            let ghost w = self@;
            let ghost dead = victims(t, list, i as int);
            assert(order@[i as int] == Some(list[i as int]));
            if let Some(id) = order[i] {
                let ghost j = t[id.0 as int]->0;
                let mut source: u64 = 0;
                let mut members: Vec<Option<Member>> = Vec::new();
                assert(crate::job::node_wf(t, id.0 as int));
                assert(self@.machine.jobs[id.0 as int] is Some);
                if let Some(job) = self.machine.jobs.job(id) {
                    source = job.state_source();
                    members = copy_members(job.members());
                }
                assert(source == j.state_source);
                assert(members@ == j.members);
                let mut k: usize = 0;
                assert(dead + processes_of(members@, 0) =~= dead);
                while k < members.len()
                    invariant
                        self.wf(),
                        w.cpus.len() == MAX_CPUS,
                        members@.len() == MAX_MEMBERS_PER_JOB,
                        k <= members@.len(),
                        i < count,
                        count <= MAX_JOBS,
                        self@ == w.members_killed(cpu, source, members@, k as int),
                        killed == (dead + processes_of(members@, k as int)).len(),
                        killed <= i * MAX_MEMBERS_PER_JOB + k,
                        named(before, killed_out@, dead + processes_of(members@, k as int)),
                    decreases members@.len() - k,
                {
                    let ghost so_far = dead + processes_of(members@, k as int);
                    if let Some(member) = members[k] {
                        self.terminate_thread(member.thread);
                        if killed < killed_out.len() {
                            killed_out[killed] = Some(member.process);
                        }
                        killed += 1;
                        proof {
                            assert(dead + processes_of(members@, k + 1) =~= so_far.push(
                                member.process,
                            ));
                        }
                        let _ = self.port_signal(cpu, source, SIGNAL_MEMBER_EXIT, 1);
                    }
                    k += 1;
                }
                let ghost emptied = self@;
                let _ = self.port_signal(cpu, source, SIGNAL_EMPTY, 1);
                proof {
                    lemma_members_killed_frame(w, cpu, source, members@, k as int);
                    lemma_signalled_frame(emptied, cpu, source, SIGNAL_EMPTY, 1);
                    assert(victims(t, list, i + 1) == dead + processes_of(members@, k as int));
                }
            }
            i += 1;
        }
        Ok(killed)
    }
}

/// The member slots, copied so that a kill can change the tables meanwhile.
fn copy_members(members: &[Option<Member>]) -> (v: Vec<Option<Member>>)
    ensures
        v@ == members@,
{
    let mut v: Vec<Option<Member>> = Vec::new();
    let mut i: usize = 0;
    while i < members.len()
        invariant
            i <= members@.len(),
            v@ == members@.take(i as int),
        decreases members@.len() - i,
    {
        v.push(members[i]);
        i += 1;
        assert(members@.take(i as int) =~= members@.take(i - 1).push(members@[i - 1]));
    }
    assert(members@.take(i as int) =~= members@);
    v
}

/// Whether no two live threads of a scheduler have the same name.
pub open spec fn names_differ(s: SchedView) -> bool {
    &&& s.threads.len() == MAX_THREADS
    &&& forall|i: int, j: int|
        0 <= i < j < MAX_THREADS && (#[trigger] alive(s, i)) && (#[trigger] alive(s, j))
            ==> s.threads[i]->0.id != s.threads[j]->0.id
}

/// Whether slot `i` holds a thread that has not exited.
pub open spec fn alive(s: SchedView, i: int) -> bool {
    s.threads[i] matches Some(t) && t.state != ThreadState::Exited
}

/// Whether no live thread of a scheduler is called `id`.
pub open spec fn nobody_called(s: SchedView, id: ThreadId) -> bool {
    forall|i: int| 0 <= i < MAX_THREADS ==> !live_as(id)(#[trigger] s.threads[i])
}

/// Making a live thread runnable, or ending one, changes nobody's name and
/// brings nobody back.
proof fn lemma_state_changed(s: SchedView, i: usize, state: ThreadState, id: ThreadId)
    requires
        names_differ(s),
        i < MAX_THREADS,
        alive(s, i as int),
    ensures
        names_differ(s.with_state(i, state)),
        nobody_called(s, id) ==> nobody_called(s.with_state(i, state), id),
{
    let u = s.with_state(i, state);
    assert forall|a: int, b: int|
        0 <= a < b < MAX_THREADS && (#[trigger] alive(u, a)) && (#[trigger] alive(u, b)) implies u.threads[a]->0.id
        != u.threads[b]->0.id by {
        assert(alive(s, a) && alive(s, b));
    }
    if nobody_called(s, id) {
        assert forall|k: int| 0 <= k < MAX_THREADS implies !live_as(id)(#[trigger] u.threads[k]) by {
            assert(!live_as(id)(s.threads[k]));
        }
    }
}

/// Whether no two live threads of one CPU have the same name, on any CPU.
pub open spec fn all_names_differ(v: ExecView) -> bool {
    &&& v.cpus.len() == MAX_CPUS
    &&& forall|c: int| 0 <= c < MAX_CPUS ==> names_differ((#[trigger] v.cpus[c]).sched)
}

/// Whether no live thread is called `id`, on any CPU.
pub open spec fn nobody_anywhere(v: ExecView, id: ThreadId) -> bool {
    forall|c: int| 0 <= c < MAX_CPUS ==> nobody_called((#[trigger] v.cpus[c]).sched, id)
}

/// Nobody comes back between `v` and `w`.
spec fn nobody_back(v: ExecView, w: ExecView, id: ThreadId) -> bool {
    &&& all_names_differ(w)
    &&& forall|c: int|
        0 <= c < MAX_CPUS && nobody_called(v.cpus[c].sched, id) ==> nobody_called(
            (#[trigger] w.cpus[c]).sched,
            id,
        )
}

proof fn lemma_woken_names(v: ExecView, cpu: u32, w: ThreadId, id: ThreadId)
    requires
        all_names_differ(v),
    ensures
        nobody_back(v, v.woken(cpu, w), id),
{
    let s = v.sched(cpu);
    assert(names_differ(v.cpus[crate::exec::seat(cpu)].sched));
    slots::lemma_first(s.threads, live_as(w));
    let at = s.slot_of(w);
    if at < MAX_THREADS {
        assert(alive(s, at));
        lemma_state_changed(s, at as usize, ThreadState::Ready, id);
        let u = s.with_state(at as usize, ThreadState::Ready);
        let x = s.unblocked(at as usize);
        assert(x.threads == u.threads);
        assert forall|a: int, b: int|
            0 <= a < b < MAX_THREADS && (#[trigger] alive(x, a)) && (#[trigger] alive(x, b)) implies x.threads[a]->0.id
            != x.threads[b]->0.id by {
            assert(alive(u, a) && alive(u, b));
        }
        if nobody_called(s, id) {
            assert forall|k: int| 0 <= k < MAX_THREADS implies !live_as(id)(
                #[trigger] x.threads[k],
            ) by {
                assert(!live_as(id)(u.threads[k]));
            }
        }
    }
}

proof fn lemma_woken_all_names(v: ExecView, cpu: u32, ids: Seq<ThreadId>, id: ThreadId)
    requires
        all_names_differ(v),
    ensures
        nobody_back(v, v.woken_all(cpu, ids), id),
    decreases ids.len(),
{
    if ids.len() > 0 {
        lemma_woken_all_names(v, cpu, ids.drop_last(), id);
        lemma_woken_names(v.woken_all(cpu, ids.drop_last()), cpu, ids.last(), id);
    }
}

proof fn lemma_signalled_names(v: ExecView, cpu: u32, source: u64, signal: u8, id: ThreadId)
    requires
        all_names_differ(v),
    ensures
        nobody_back(v, v.signalled(cpu, source, signal, 1), id),
{
    let ids = drainers(v.machine.ports, source, signal);
    lemma_woken_all_names(v, cpu, ids, id);
    assert(v.signalled(cpu, source, signal, 1).cpus == v.woken_all(cpu, ids).cpus);
}

proof fn lemma_terminated_names(v: ExecView, cpu: u32, dead: ThreadId, id: ThreadId)
    requires
        all_names_differ(v),
        cpu < MAX_CPUS,
    ensures
        nobody_back(v, v.terminated(cpu, dead), id),
        nobody_called(v.terminated(cpu, dead).cpus[cpu as int].sched, dead),
{
    let s = v.sched(cpu);
    assert(names_differ(v.cpus[crate::exec::seat(cpu)].sched));
    slots::lemma_first(s.threads, live_as(dead));
    let at = s.slot_of(dead);
    if at < MAX_THREADS {
        assert(alive(s, at));
        lemma_state_changed(s, at as usize, ThreadState::Exited, id);
        let u = s.with_state(at as usize, ThreadState::Exited);
        assert forall|k: int| 0 <= k < MAX_THREADS implies !live_as(dead)(#[trigger] u.threads[k]) by {
            if k != at && live_as(dead)(u.threads[k]) {
                assert(alive(s, k) && alive(s, at));
            }
        }
    } else {
        assert(nobody_called(s, dead));
    }
}

proof fn lemma_ended_names(v: ExecView, dead: ThreadId, n: int, id: ThreadId)
    requires
        all_names_differ(v),
        0 <= n <= MAX_CPUS,
    ensures
        nobody_back(v, v.terminated_upto(dead, n), id),
        forall|c: int|
            0 <= c < n ==> nobody_called(
                (#[trigger] v.terminated_upto(dead, n).cpus[c]).sched,
                dead,
            ),
    decreases n,
{
    if n > 0 {
        lemma_ended_names(v, dead, n - 1, id);
        let u = v.terminated_upto(dead, n - 1);
        lemma_terminated_names(u, (n - 1) as u32, dead, id);
        lemma_terminated_names(u, (n - 1) as u32, dead, dead);
        assert forall|c: int| 0 <= c < n implies nobody_called(
            (#[trigger] v.terminated_upto(dead, n).cpus[c]).sched,
            dead,
        ) by {
            if c < n - 1 {
                assert(nobody_called(u.cpus[c].sched, dead));
            }
        }
    }
}

/// What was so of `id` everywhere stays so.
proof fn lemma_nobody_stays(v: ExecView, w: ExecView, id: ThreadId)
    requires
        nobody_back(v, w, id),
        nobody_anywhere(v, id),
    ensures
        nobody_anywhere(w, id),
{
    assert forall|c: int| 0 <= c < MAX_CPUS implies nobody_called(
        (#[trigger] w.cpus[c]).sched,
        id,
    ) by {
        assert(nobody_called(v.cpus[c].sched, id));
    }
}

proof fn lemma_members_killed_names(
    v: ExecView,
    cpu: u32,
    source: u64,
    members: Seq<Option<Member>>,
    n: int,
    k: int,
    id: ThreadId,
)
    requires
        all_names_differ(v),
        0 <= n <= members.len(),
    ensures
        ({
            let w = v.members_killed(cpu, source, members, n);
            &&& all_names_differ(w)
            &&& nobody_anywhere(v, id) ==> nobody_anywhere(w, id)
            &&& 0 <= k < n && members[k] is Some ==> nobody_anywhere(w, members[k]->0.thread)
        }),
    decreases n,
{
    if n > 0 {
        lemma_members_killed_names(v, cpu, source, members, n - 1, k, id);
        let u = v.members_killed(cpu, source, members, n - 1);
        if let Some(m) = members[n - 1] {
            let t = u.ended(m.thread);
            let w = v.members_killed(cpu, source, members, n);
            lemma_ended_names(u, m.thread, MAX_CPUS as int, id);
            assert(nobody_anywhere(t, m.thread));
            lemma_signalled_names(t, cpu, source, SIGNAL_MEMBER_EXIT, id);
            lemma_signalled_names(t, cpu, source, SIGNAL_MEMBER_EXIT, m.thread);
            lemma_nobody_stays(t, w, m.thread);
            if nobody_anywhere(u, id) {
                lemma_nobody_stays(u, t, id);
                lemma_nobody_stays(t, w, id);
            }
            if 0 <= k < n - 1 && members[k] is Some {
                let other = members[k]->0.thread;
                lemma_ended_names(u, m.thread, MAX_CPUS as int, other);
                lemma_signalled_names(t, cpu, source, SIGNAL_MEMBER_EXIT, other);
                lemma_nobody_stays(u, t, other);
                lemma_nobody_stays(t, w, other);
            }
        }
    }
}

/// Killing a subtree leaves none of its members running, on any CPU: no live
/// thread answers to the name of any of them.
pub proof fn law_a_killed_job_has_nobody_running(
    v: ExecView,
    cpu: u32,
    jobs: JobsView,
    order: Seq<JobId>,
    n: int,
    j: int,
    k: int,
)
    requires
        all_names_differ(v),
        0 <= j < n <= order.len(),
        0 <= k < jobs[order[j].0 as int]->0.members.len(),
        jobs[order[j].0 as int]->0.members[k] is Some,
    ensures
        all_names_differ(v.jobs_killed(cpu, jobs, order, n)),
        nobody_anywhere(
            v.jobs_killed(cpu, jobs, order, n),
            jobs[order[j].0 as int]->0.members[k]->0.thread,
        ),
    decreases n,
{
    let id = jobs[order[j].0 as int]->0.members[k]->0.thread;
    let before = v.jobs_killed(cpu, jobs, order, n - 1);
    lemma_jobs_killed_names(v, cpu, jobs, order, n - 1);
    let job = jobs[order[n - 1].0 as int]->0;
    if j < n - 1 {
        law_a_killed_job_has_nobody_running(v, cpu, jobs, order, n - 1, j, k);
    }
    let len = job.members.len() as int;
    let emptied = before.members_killed(cpu, job.state_source, job.members, len);
    lemma_members_killed_names(before, cpu, job.state_source, job.members, len, k, id);
    lemma_signalled_names(emptied, cpu, job.state_source, SIGNAL_EMPTY, id);
    lemma_nobody_stays(emptied, v.jobs_killed(cpu, jobs, order, n), id);
}

proof fn lemma_jobs_killed_names(
    v: ExecView,
    cpu: u32,
    jobs: JobsView,
    order: Seq<JobId>,
    n: int,
)
    requires
        all_names_differ(v),
    ensures
        all_names_differ(v.jobs_killed(cpu, jobs, order, n)),
    decreases n,
{
    if n > 0 {
        lemma_jobs_killed_names(v, cpu, jobs, order, n - 1);
        let before = v.jobs_killed(cpu, jobs, order, n - 1);
        let job = jobs[order[n - 1].0 as int]->0;
        let len = job.members.len() as int;
        let id = ThreadId(0);
        lemma_members_killed_names(before, cpu, job.state_source, job.members, len, 0, id);
        lemma_signalled_names(
            before.members_killed(cpu, job.state_source, job.members, len),
            cpu,
            job.state_source,
            SIGNAL_EMPTY,
            id,
        );
    }
}

/// Terminating a thread terminates the live thread of that name, keeps everything
/// else of it, and touches no other thread.
pub proof fn law_only_the_named_thread_is_terminated(
    v: ExecView,
    cpu: u32,
    id: ThreadId,
    k: int,
    other: int,
)
    requires
        v.cpus.len() == MAX_CPUS,
        cpu < MAX_CPUS,
        v.sched(cpu).threads.len() == MAX_THREADS,
        0 <= k < MAX_THREADS,
        0 <= other < MAX_CPUS,
        other != cpu,
    ensures
        v.terminated(cpu, id).cpus[other] == v.cpus[other],
        v.terminated(cpu, id).machine == v.machine,
        v.terminated(cpu, id).sched(cpu).ready == v.sched(cpu).ready,
        v.terminated(cpu, id).sched(cpu).current == v.sched(cpu).current,
        v.sched(cpu).slot_of(id) == k ==> (v.terminated(cpu, id).sched(cpu).threads[k] matches Some(
            t,
        ) && t.id == id && t.state == ThreadState::Exited && t.kernel_stack_base == v.sched(
            cpu,
        ).threads[k]->0.kernel_stack_base && t.process == v.sched(cpu).threads[k]->0.process),
        v.sched(cpu).slot_of(id) != k ==> v.terminated(cpu, id).sched(cpu).threads[k] == v.sched(
            cpu,
        ).threads[k],
{
    slots::lemma_first(v.sched(cpu).threads, live_as(id));
}

/// Each member of a killed job ends on every CPU and its end is signalled under
/// the job's number, one by one; after the last of them the job is signalled
/// empty.
pub proof fn law_each_members_end_is_signalled(
    v: ExecView,
    cpu: u32,
    source: u64,
    members: Seq<Option<Member>>,
    jobs: JobsView,
    order: Seq<JobId>,
    n: int,
    k: int,
)
    requires
        0 < n <= members.len(),
        0 < k <= order.len(),
    ensures
        members[n - 1] matches Some(m) ==> v.members_killed(cpu, source, members, n)
            == v.members_killed(cpu, source, members, n - 1).ended(m.thread).signalled(
            cpu,
            source,
            SIGNAL_MEMBER_EXIT,
            1,
        ),
        members[n - 1] is None ==> v.members_killed(cpu, source, members, n) == v.members_killed(
            cpu,
            source,
            members,
            n - 1,
        ),
        v.members_killed(cpu, source, members, 0) == v,
        ({
            let j = jobs[order[k - 1].0 as int]->0;
            v.jobs_killed(cpu, jobs, order, k) == v.jobs_killed(
                cpu,
                jobs,
                order,
                k - 1,
            ).members_killed(cpu, j.state_source, j.members, j.members.len() as int).signalled(
                cpu,
                j.state_source,
                SIGNAL_EMPTY,
                1,
            )
        }),
        v.jobs_killed(cpu, jobs, order, 0) == v,
{
}

/// The processes of the dead are those of every member of every killed job, and
/// no other.
pub proof fn law_the_dead_are_the_members(
    jobs: JobsView,
    order: Seq<JobId>,
    n: int,
    i: int,
    k: int,
)
    requires
        0 <= i < n <= order.len(),
        0 <= k < jobs[order[i].0 as int]->0.members.len(),
    ensures
        jobs[order[i].0 as int]->0.members[k] matches Some(m) ==> victims(jobs, order, n).contains(
            m.process,
        ),
    decreases n,
{
    let members = jobs[order[n - 1].0 as int]->0.members;
    let before = victims(jobs, order, n - 1);
    let mine = processes_of(members, members.len() as int);
    let all = victims(jobs, order, n);
    if let Some(m) = jobs[order[i].0 as int]->0.members[k] {
        if i < n - 1 {
            law_the_dead_are_the_members(jobs, order, n - 1, i, k);
            let j = choose|j: int| 0 <= j < before.len() && before[j] == m.process;
            assert(all[j] == m.process);
        } else {
            lemma_member_listed(members, members.len() as int, k);
            let j = choose|j: int| 0 <= j < mine.len() && mine[j] == m.process;
            assert(all[before.len() + j] == m.process);
        }
    }
}

proof fn lemma_member_listed(members: Seq<Option<Member>>, n: int, k: int)
    requires
        0 <= k < n <= members.len(),
    ensures
        members[k] matches Some(m) ==> processes_of(members, n).contains(m.process),
    decreases n,
{
    let before = processes_of(members, n - 1);
    let all = processes_of(members, n);
    if let Some(m) = members[k] {
        if k < n - 1 {
            lemma_member_listed(members, n - 1, k);
            let j = choose|j: int| 0 <= j < before.len() && before[j] == m.process;
            assert(all[j] == m.process);
        } else {
            assert(all[before.len() as int] == m.process);
        }
    }
}

/// Nobody is named among the dead who was not a member.
pub proof fn law_nobody_else_is_named(members: Seq<Option<Member>>, n: int, id: ObjectId)
    requires
        0 <= n <= members.len(),
        processes_of(members, n).contains(id),
    ensures
        exists|k: int| 0 <= k < n && (#[trigger] members[k] matches Some(m) && m.process == id),
    decreases n,
{
    if n > 0 {
        let before = processes_of(members, n - 1);
        let all = processes_of(members, n);
        let j = choose|j: int| 0 <= j < all.len() && all[j] == id;
        if j < before.len() {
            assert(before[j] == id);
            assert(before.contains(id));
            law_nobody_else_is_named(members, n - 1, id);
            let k = choose|k: int|
                0 <= k < n - 1 && (#[trigger] members[k] matches Some(m) && m.process == id);
            assert(members[k] matches Some(m) && m.process == id);
        } else {
            assert(members[n - 1] matches Some(m) && m.process == id);
        }
    }
}

/// The list of the dead is written out in order as far as there is room.
pub proof fn law_the_dead_are_named_in_order(
    before: Seq<Option<ObjectId>>,
    out: Seq<Option<ObjectId>>,
    list: Seq<ObjectId>,
    i: int,
)
    requires
        named(before, out, list),
        0 <= i < before.len(),
    ensures
        out.len() == before.len(),
        i < list.len() ==> out[i] == Some(list[i]),
        i >= list.len() ==> out[i] == before[i],
{
}

} // verus!
