//! System power through the executive: which devices may wake the machine,
//! who keeps it awake, and the suspend commit.
use vstd::prelude::*;
use crate::config::MAX_DEVICES;
use crate::devmgr::{armed_on, device, with_device, DeviceView};
use crate::error::KError;
use crate::exec::{ExecView, Executive, MachineView};
use crate::object::ObjectId;
use crate::occupancy::Site;
use crate::power::{lapsed, live, owned, WakeError, WakeView, MAX_WAKE_HOLDS, WAKE_GRACE_TICKS};
use crate::sched::Switch;
use crate::slots;
use crate::thread::ThreadId;

verus! {

/// How a suspend commit ended.
#[derive(Clone, Copy, PartialEq, Eq, Debug, Structural)]
pub enum SuspendOutcome {
    /// The machine slept and was woken.
    Resumed,
    /// A wake arrived since the snapshot: the machine never stopped.
    WakeArrived,
    /// A wake hold vetoed.
    Vetoed,
}

impl SuspendOutcome {
    /// The number this outcome is reported as.
    pub open spec fn number(self) -> u32 {
        match self {
            SuspendOutcome::Resumed => 1,
            SuspendOutcome::WakeArrived => 2,
            SuspendOutcome::Vetoed => 3,
        }
    }

    /// The number this outcome is reported as.
    pub fn code(self) -> (n: u32)
        ensures
            n == self.number(),
    {
        match self {
            SuspendOutcome::Resumed => 1,
            SuspendOutcome::WakeArrived => 2,
            SuspendOutcome::Vetoed => 3,
        }
    }
}

/// What a suspend commit reports: how it ended, the wake-event count, and who
/// was behind it.
#[derive(Clone, Copy, PartialEq, Eq, Debug, Structural)]
pub struct SuspendReport {
    pub outcome: SuspendOutcome,
    pub events: u64,
    pub source: Option<ObjectId>,
}

/// A wake that was counted.
#[derive(Clone, Copy, PartialEq, Eq, Debug, Structural)]
pub struct WakeRecord {
    /// The source credited with it.
    pub source: ObjectId,
    /// Whether its grace hold was taken: there may be no room.
    pub held: bool,
    /// The wake-event counter after it.
    pub events: u64,
    /// When it was counted.
    pub at: u64,
}

/// What committing to sleep comes to.
#[derive(Clone, Copy, PartialEq, Eq, Debug, Structural)]
pub enum SuspendStep {
    /// The commit was refused.
    Refused(SuspendReport),
    /// The machine sleeps; when the thread runs again it asks for the report.
    Asleep(Switch),
}

impl ExecView {
    /// With the wake state replaced.
    pub open spec fn with_wake(self, wake: WakeView) -> ExecView {
        ExecView { machine: MachineView { wake, ..self.machine }, ..self }
    }

    /// Where the device armed on line `intid` is, or the capacity.
    pub open spec fn armed_at(self, intid: u32) -> int {
        slots::first(self.machine.devices, armed_on(intid))
    }

    /// The tick count of `cpu`.
    pub open spec fn now(self, cpu: u32) -> u64 {
        self.sched(cpu).ticks
    }

    /// After `source` woke the machine: the event is counted, and a sleeper is
    /// told who and made runnable.
    pub open spec fn wake_recorded(self, cpu: u32, source: ObjectId) -> ExecView {
        let v = self.with_wake(self.machine.wake.woken(source, self.now(cpu)));
        match v.machine.sleeper {
            Some(t) => ExecView {
                machine: MachineView { sleeper: None, resumed_by: Some(source), ..v.machine },
                ..v
            }.woken(cpu, t),
            None => v,
        }
    }

    /// The first hold still counting at `now`, if any.
    pub open spec fn vetoer(self, now: u64) -> Option<ObjectId> {
        let counting = self.machine.wake.holds.filter(live(now));
        if counting.len() > 0 {
            Some(counting[0]->0.holder)
        } else {
            None
        }
    }
}

impl Executive {
    /// Arms or disarms `id`'s interrupt as a system wakeup source.
    pub fn set_wake_source(&mut self, id: ObjectId, armed: bool) -> (r: Result<(), KError>)
        requires
            old(self).wf(),
        ensures
            final(self).wf(),
            match device(old(self)@.machine.devices, id) {
                None => r == Err::<(), _>(KError::BadHandle) && final(self)@ == old(self)@,
                Some(n) => {
                    &&& r is Ok
                    &&& final(self)@ == old(self)@.with_devices(
                        with_device(
                            old(self)@.machine.devices,
                            id,
                            DeviceView { wake_armed: armed, ..n },
                        ),
                    )
                },
            },
    {
        let r = self.machine.devices.set_wake_source(id, armed);
        assert(self@ =~= old(self)@.with_devices(self.machine.devices@));
        r
    }

    /// Whether `id`'s interrupt may wake this machine.
    pub fn is_wake_source(&self, id: ObjectId) -> (b: bool)
        requires
            self.wf(),
        ensures
            b == (device(self@.machine.devices, id) matches Some(n) && n.wake_armed),
    {
        self.machine.devices.is_wake_source(id)
    }

    /// Records a wake if line `intid` belongs to an armed wakeup source, and
    /// answers the source that was credited and what came with it. A sleeping machine's sleep ends
    /// here, as part of counting the event. A line nobody armed touches
    /// nothing. Called before the line's port is signalled, so the count has
    /// moved by the time anything can observe the event.
    pub fn record_wake(&mut self, cpu: u32, intid: u32) -> (r: Option<WakeRecord>)
        requires
            old(self).wf(),
            old(self)@.now(cpu) + WAKE_GRACE_TICKS <= u64::MAX,
        ensures
            final(self).wf(),
            ({
                let v = old(self)@;
                let at = v.armed_at(intid);
                match r {
                    Some(w) => {
                        &&& at < MAX_DEVICES
                        &&& v.machine.devices[at]->0.object == w.source
                        &&& final(self)@ == v.wake_recorded(cpu, w.source)
                        &&& w.held == (v.machine.wake.vacancy() < MAX_WAKE_HOLDS)
                        &&& w.events == v.machine.wake.woken(w.source, v.now(cpu)).events
                        &&& w.at == v.now(cpu)
                    },
                    None => at == MAX_DEVICES && final(self)@ == v,
                }
            }),
    {
        let ghost v = self@;
        let source: ObjectId = match self.machine.devices.armed_wake_source(intid) {
            None => {
                return None;
            },
            Some(id) => id,
        };
        let now: u64 = self.scheduler(cpu).ticks();
        let held: bool = self.machine.wake.record_wake(source, now);
        let events: u64 = self.machine.wake.events();
        assert(self@ =~= v.with_wake(v.machine.wake.woken(source, now)));
        let ghost w = self@;
        let sleeper: Option<ThreadId> = self.machine.sleeper;
        if let Some(t) = sleeper {
            self.machine.sleeper = None;
            self.machine.resumed_by = Some(source);
            assert(self@ =~= ExecView {
                machine: MachineView { sleeper: None, resumed_by: Some(source), ..w.machine },
                ..w
            });
            let _ = self.wake_thread(cpu, t);
        }
        Some(WakeRecord { source, held, events, at: now })
    }

    /// The system wake-event counter.
    pub fn wake_events(&self) -> (n: u64)
        ensures
            n == self@.machine.wake.events,
    {
        self.machine.wake.events()
    }

    /// Takes a wake hold for `holder`, lasting `ticks` scheduler ticks or until
    /// released when `ticks` is zero. Lapsed holds are swept first: expiry is
    /// the only thing that clears them for a holder that stopped renewing.
    pub fn acquire_wake_hold(&mut self, cpu: u32, holder: ObjectId, ticks: u64) -> (r: Result<
        (),
        WakeError,
    >)
        requires
            old(self).wf(),
            old(self)@.now(cpu) + ticks <= u64::MAX,
        ensures
            final(self).wf(),
            ({
                let v = old(self)@;
                let now = v.now(cpu);
                let w = v.machine.wake.without(lapsed(now));
                let until: Option<u64> = if ticks != 0 {
                    Some((now + ticks) as u64)
                } else {
                    None
                };
                &&& final(self)@ == v.with_wake(w.acquired(holder, until))
                &&& r is Ok == (w.vacancy() < w.holds.len())
            }),
    {
        let ghost v = self@;
        let now: u64 = self.scheduler(cpu).ticks();
        let _ = self.machine.wake.expire(now);
        let until: Option<u64> = if ticks != 0 {
            Some(now + ticks)
        } else {
            None
        };
        let r = self.machine.wake.acquire(holder, until);
        assert(self@ =~= v.with_wake(self.machine.wake@));
        r
    }

    /// Releases one of `holder`'s wake holds. Answers whether there was one.
    pub fn release_wake_hold(&mut self, holder: ObjectId) -> (b: bool)
        requires
            old(self).wf(),
        ensures
            final(self).wf(),
            b == slots::any(old(self)@.machine.wake.holds, owned(holder)),
            final(self)@ == old(self)@.with_wake(old(self)@.machine.wake.released(holder)),
    {
        let b = self.machine.wake.release(holder);
        assert(self@ =~= old(self)@.with_wake(self.machine.wake@));
        b
    }

    /// Releases every hold `holder` has: for a process that has gone.
    pub fn release_wake_holds_of(&mut self, holder: ObjectId) -> (n: usize)
        requires
            old(self).wf(),
        ensures
            final(self).wf(),
            n == slots::count(old(self)@.machine.wake.holds, owned(holder)),
            final(self)@ == old(self)@.with_wake(
                old(self)@.machine.wake.without(owned(holder)),
            ),
    {
        let n = self.machine.wake.release_all(holder);
        assert(self@ =~= old(self)@.with_wake(self.machine.wake@));
        n
    }

    /// Sweeps lapsed holds, and answers how many still count.
    pub fn wake_holds_held(&mut self, cpu: u32) -> (n: usize)
        requires
            old(self).wf(),
        ensures
            final(self).wf(),
            ({
                let now = old(self)@.now(cpu);
                let w = old(self)@.machine.wake.without(lapsed(now));
                n == w.held(now) && final(self)@ == old(self)@.with_wake(w)
            }),
    {
        let now: u64 = self.scheduler(cpu).ticks();
        let _ = self.machine.wake.expire(now);
        assert(self@ =~= old(self)@.with_wake(self.machine.wake@));
        self.machine.wake.held(now)
    }

    /// Who is vetoing a suspend commit, if anybody.
    pub fn wake_hold_holder(&self, cpu: u32) -> (r: Option<ObjectId>)
        requires
            self.wf(),
        ensures
            r == self@.vetoer(self@.now(cpu)),
    {
        self.machine.wake.holder_at(self.scheduler(cpu).ticks(), 0)
    }

    /// Commits the system to sleep. Refused when the wake-event counter has
    /// moved since `snapshot`, whenever that happened, and, after that, when a
    /// wake hold vetoes. Otherwise the caller is parked as the sleeper, and
    /// [`record_wake`](Self::record_wake) makes it runnable; it then asks
    /// [`suspend_report`](Self::suspend_report).
    pub fn system_suspend(&mut self, cpu: u32, snapshot: u64) -> (r: SuspendStep)
        requires
            old(self).wf(),
            old(self)@.can_switch(cpu),
        ensures
            final(self).wf(),
            suspend_step(
                old(self)@.entered(cpu, Site::SystemSuspend),
                final(self)@,
                cpu,
                snapshot,
                r,
            ),
    {
        self.enter_blocking(cpu, Site::SystemSuspend);
        let ghost v = self@;
        let now: u64 = self.scheduler(cpu).ticks();
        let events: u64 = self.machine.wake.events();
        if events != snapshot {
            self.leave_blocking(cpu, Site::SystemSuspend);
            return SuspendStep::Refused(
                SuspendReport { outcome: SuspendOutcome::WakeArrived, events, source: None },
            );
        }
        let _ = self.machine.wake.expire(now);
        let ghost s = self@;
        assert(s =~= v.with_wake(v.machine.wake.without(lapsed(now))));
        if let Some(holder) = self.machine.wake.holder_at(now, 0) {
            self.leave_blocking(cpu, Site::SystemSuspend);
            return SuspendStep::Refused(
                SuspendReport { outcome: SuspendOutcome::Vetoed, events, source: Some(holder) },
            );
        }
        let me: Option<ThreadId> = self.current_id(cpu);
        self.machine.sleeper = me;
        self.machine.resumed_by = None;
        assert(self@ =~= ExecView {
            machine: MachineView { sleeper: s.running_id(cpu), resumed_by: None, ..s.machine },
            ..s
        });
        SuspendStep::Asleep(self.park_current(cpu))
    }

    /// What the thread that committed to sleep reports when it runs again: who
    /// woke the machine, consuming the record.
    pub fn suspend_report(&mut self, cpu: u32) -> (r: SuspendReport)
        requires
            old(self).wf(),
        ensures
            final(self).wf(),
            r == (SuspendReport {
                outcome: SuspendOutcome::Resumed,
                events: old(self)@.machine.wake.events,
                source: old(self)@.machine.resumed_by,
            }),
            final(self)@ == (ExecView {
                machine: MachineView { resumed_by: None, ..old(self)@.machine },
                ..old(self)@
            }).left(cpu, Site::SystemSuspend),
    {
        let source: Option<ObjectId> = self.machine.resumed_by;
        self.machine.resumed_by = None;
        assert(self@ =~= ExecView {
            machine: MachineView { resumed_by: None, ..old(self)@.machine },
            ..old(self)@
        });
        self.leave_blocking(cpu, Site::SystemSuspend);
        SuspendReport {
            outcome: SuspendOutcome::Resumed,
            events: self.machine.wake.events(),
            source,
        }
    }
}

/// What committing to sleep comes to, from the state in which the thread is
/// inside.
pub open spec fn suspend_step(
    v: ExecView,
    w: ExecView,
    cpu: u32,
    snapshot: u64,
    r: SuspendStep,
) -> bool {
    let now = v.now(cpu);
    let events = v.machine.wake.events;
    let s = v.with_wake(v.machine.wake.without(lapsed(now)));
    if events != snapshot {
        &&& r == SuspendStep::Refused(
            SuspendReport { outcome: SuspendOutcome::WakeArrived, events, source: None },
        )
        &&& w == v.left(cpu, Site::SystemSuspend)
    } else if s.vetoer(now) is Some {
        &&& r == SuspendStep::Refused(
            SuspendReport { outcome: SuspendOutcome::Vetoed, events, source: s.vetoer(now) },
        )
        &&& w == s.left(cpu, Site::SystemSuspend)
    } else {
        let p = ExecView {
            machine: MachineView { sleeper: s.running_id(cpu), resumed_by: None, ..s.machine },
            ..s
        };
        r == SuspendStep::Asleep(p.park_switch(cpu)) && w == p.parked(cpu)
    }
}

/// No wakeup is lost to a suspend: once a wake has been recorded, a commit with
/// a snapshot taken before it is refused.
pub proof fn law_no_lost_wakeup(v: ExecView, cpu: u32, source: ObjectId)
    requires
        v.machine.wake.wf(),
        v.cpus.len() == crate::config::MAX_CPUS,
        v.now(cpu) + WAKE_GRACE_TICKS <= u64::MAX,
    ensures
        v.wake_recorded(cpu, source).machine.wake.events != v.machine.wake.events,
        v.wake_recorded(cpu, source).machine.sleeper is None,
        v.machine.sleeper is Some ==> v.wake_recorded(cpu, source).machine.resumed_by == Some(
            source,
        ),
{
    crate::power::law_every_wake_moves_the_counter(v.machine.wake, source, v.now(cpu));
    let w = v.with_wake(v.machine.wake.woken(source, v.now(cpu)));
    if let Some(t) = w.machine.sleeper {
        let u = ExecView {
            machine: MachineView { sleeper: None, resumed_by: Some(source), ..w.machine },
            ..w
        };
        crate::exec::ports::lemma_woken_frame(u, cpu, t);
    }
}

/// A suspend is refused when a wake was counted since its snapshot, whatever is
/// held; else when anything is held, naming who holds first; and otherwise the
/// caller is the sleeper, parked until a wake.
pub proof fn law_a_suspend_is_refused_for_cause(
    v: ExecView,
    w: ExecView,
    cpu: u32,
    snapshot: u64,
    r: SuspendStep,
)
    requires
        v.cpus.len() == crate::config::MAX_CPUS,
        v.machine.wake.wf(),
        suspend_step(v, w, cpu, snapshot, r),
    ensures
        v.machine.wake.events != snapshot ==> (r matches SuspendStep::Refused(p) && p.outcome
            == SuspendOutcome::WakeArrived && p.events == v.machine.wake.events && p.source is None),
        v.machine.wake.events == snapshot && (exists|k: int|
            0 <= k < v.machine.wake.holds.len() && (#[trigger] v.machine.wake.holds[k] matches Some(
                h,
            ) && (h.expires_at matches Some(at) ==> at > v.sched(cpu).ticks))) ==> (
        r matches SuspendStep::Refused(p) && p.outcome == SuspendOutcome::Vetoed && p.events
            == snapshot && (p.source matches Some(who) && exists|k: int|
            0 <= k < v.machine.wake.holds.len() && (#[trigger] v.machine.wake.holds[k] matches Some(
                h,
            ) && h.holder == who))),
        v.machine.wake.events == snapshot && (forall|k: int|
            0 <= k < v.machine.wake.holds.len() ==> (#[trigger] v.machine.wake.holds[k] matches Some(
                h,
            ) ==> (h.expires_at matches Some(at) && at <= v.sched(cpu).ticks))) ==> {
            &&& r is Asleep
            &&& v.running(cpu) matches Some(t) ==> w.machine.sleeper == Some(t.id)
            &&& w.machine.resumed_by is None
        },
        r is Refused ==> w.machine.sleeper == v.machine.sleeper && w.sched(cpu) == v.sched(cpu),
        w.machine.wake.events == v.machine.wake.events,
        SuspendOutcome::Resumed.number() == 1,
        SuspendOutcome::WakeArrived.number() == 2,
        SuspendOutcome::Vetoed.number() == 3,
{
    let now = v.sched(cpu).ticks;
    let before = v.machine.wake.holds;
    let holds = v.machine.wake.without(lapsed(now)).holds;
    let counting = holds.filter(crate::power::live(now));
    if counting.len() > 0 {
        holds.lemma_filter_pred(crate::power::live(now), 0);
        assert(counting.contains(counting[0]));
        holds.lemma_filter_contains_rev(crate::power::live(now), counting[0]);
        let k = choose|k: int| 0 <= k < holds.len() && holds[k] == counting[0];
        assert(before[k] == holds[k]);
        assert(before[k] matches Some(h) && h.holder == counting[0]->0.holder);
    }
    if exists|k: int|
        0 <= k < before.len() && (#[trigger] before[k] matches Some(h) && (
        h.expires_at matches Some(at) ==> at > now)) {
        let k = choose|k: int|
            0 <= k < before.len() && (#[trigger] before[k] matches Some(h) && (
            h.expires_at matches Some(at) ==> at > now));
        assert(holds[k] == before[k]);
        assert(crate::power::live(now)(holds[k]));
        holds.lemma_filter_contains(crate::power::live(now), k);
    }
}

/// A wake that is recorded wakes the sleeper, if there is one: on this CPU it is
/// ready to run.
pub proof fn law_a_wake_wakes_the_sleeper(v: ExecView, cpu: u32, source: ObjectId, slot: usize)
    requires
        v.cpus.len() == crate::config::MAX_CPUS,
        v.local(cpu).wf(),
        v.machine.wake.wf(),
        v.now(cpu) + WAKE_GRACE_TICKS <= u64::MAX,
        v.machine.sleeper matches Some(t) && v.residence(cpu, t) == crate::exec::Residence::Here(
            slot,
        ),
    ensures
        v.wake_recorded(cpu, source).sched(cpu).threads[slot as int] matches Some(t) && Some(t.id)
            == v.machine.sleeper && t.state == crate::thread::ThreadState::Ready,
        v.wake_recorded(cpu, source).machine.sleeper is None,
        v.now(cpu) == v.sched(cpu).ticks,
{
    let t = v.machine.sleeper->0;
    let s = v.sched(cpu);
    slots::lemma_first(s.threads, crate::sched::live_as(t));
    assert(crate::sched::live_as(t)(s.threads[s.slot_of(t)]));
    let a = v.with_wake(v.machine.wake.woken(source, v.now(cpu)));
    let b = ExecView {
        machine: MachineView { sleeper: None, resumed_by: Some(source), ..a.machine },
        ..a
    };
    assert(b.residence(cpu, t) == v.residence(cpu, t));
}

} // verus!
