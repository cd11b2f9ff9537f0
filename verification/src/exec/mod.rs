//! The executive: the machine-wide tables and each CPU's scheduler, and the
//! operations that join them. A blocking operation is split where the thread
//! leaves the processor: it returns the switch to perform, and what remains to
//! be done when the thread runs again is a function of its own.
//!
//! Machine-wide state names threads by identity; a scheduler's slots name them
//! only on the CPU that owns them.
use vstd::prelude::*;
use crate::config::{MAX_CPUS, MAX_PAGERS, MAX_THREADS};
use crate::devmgr::{DeviceTable, DevicesView};
use crate::error::KError;
use crate::ipc::{ChannelTable, ChannelsView, EndpointId};
use crate::job::{JobTable, JobsView};
use crate::lifecycle::{LifecycleRecord, LifecycleTable};
use crate::memory::{MemoryTable, MemoryView};
use crate::object::ObjectId;
use crate::occupancy::{mark_entry, mark_exit, Occupancy, OccupancyView, Site};
use crate::pager::{GraphView, PageInSupervisor, SelfPagingGraph, WriteBackReservation};
use crate::port::{PortTable, PortsView};
use crate::power::{WakeState, WakeView};
use crate::sched::{SchedView, Scheduler, Switch};
use crate::slots;
use crate::thread::{Thread, ThreadId, ThreadState};
use crate::wait::{WaitSet, Waiter};

pub mod delivery;
pub mod devices;
pub mod events;
pub mod grants;
pub mod inside;
pub mod jobs;
pub mod laws;
pub mod messaging;
pub mod mint;
pub mod paging;
pub mod ports;
pub mod power;
pub mod reclaim;
pub mod records;
pub mod removal;
pub mod replies;
pub mod unplug;
pub mod waiting;

verus! {

/// How many synchronous calls one thread may have nested.
pub const MAX_SYNC_DEPTH: u8 = 8;

/// Bytes in the notice a device's dependents are sent.
pub const SERVICE_NOTICE_SIZE: usize = 32;

/// The port signal an interrupt raises.
pub const IRQ_PORT_SIGNAL: u8 = 1;

/// The port signal raised when the device behind a line is removed.
pub const IRQ_PORT_SIGNAL_REMOVED: u8 = 3;

/// The port signal a holder raises by itself.
pub const SOFTWARE_PORT_SIGNAL: u8 = 4;

/// Frames the page cache may hold.
pub const CACHE_FRAME_BUDGET: u32 = 8;

/// How many of them are set aside for write-back.
pub const CACHE_WRITE_BACK_RESERVE: u32 = 2;

/// The CPU that boots the machine.
pub const BOOT_CPU: u32 = 0;

/// A page-in that has been sent and not answered.
#[derive(Clone, Copy, PartialEq, Eq, Debug, Structural)]
pub struct PageInFlight {
    pub faulter: ThreadId,
    pub from: EndpointId,
    pub object: ObjectId,
    pub offset: u64,
}

/// An endpoint and the object it is known by.
#[derive(Clone, Copy, PartialEq, Eq, Debug, Structural)]
pub struct BoundEndpoint {
    pub endpoint: EndpointId,
    pub object: ObjectId,
}

/// A wakeup for a thread another CPU owns.
#[derive(Clone, Copy, PartialEq, Eq, Debug, Structural)]
pub struct Posted {
    pub cpu: u32,
    pub slot: usize,
    pub id: ThreadId,
}

/// Where a thread named by identity is, from the point of view of the CPU
/// asking.
#[derive(Clone, Copy, PartialEq, Eq, Debug, Structural)]
pub enum Residence {
    /// In this CPU's own scheduler, at this slot: the only case a handoff or a
    /// priority change can act on.
    Here(usize),
    /// In another CPU's scheduler. Reachable only by posting a wakeup.
    Elsewhere { cpu: u32, slot: usize },
    /// Nowhere: it exited.
    Gone,
}

/// What a thread that is lent a caller's priority and cause puts aside.
#[derive(Clone, Copy, PartialEq, Eq, Debug, Structural)]
pub struct Loan {
    /// The call the loan in force is for.
    pub txn: u64,
    /// Who it is lent to.
    pub callee: ThreadId,
    /// The callee's own priority.
    pub priority: u8,
    /// The callee's own cause.
    pub correlation: u64,
}

/// One CPU's half of the executive.
pub struct CpuLocal {
    pub sched: Scheduler,
    /// Which half this is.
    pub half: usize,
    /// The next transaction this CPU mints.
    pub next_txn: u64,
    /// Per thread slot: how many synchronous calls are nested.
    pub sync_depth: Vec<u8>,
    /// Per thread slot: what is put aside while a caller's is lent.
    pub loans: Vec<Option<Loan>>,
}

/// What a [`CpuLocal`] holds.
#[verifier::ext_equal]
pub struct CpuView {
    pub sched: SchedView,
    pub next_txn: u64,
    pub sync_depth: Seq<u8>,
    pub loans: Seq<Option<Loan>>,
}

impl CpuView {
    /// A CPU nothing has run on.
    pub open spec fn fresh(quantum: u32, tick_limit: u64) -> CpuView {
        CpuView {
            sched: SchedView::fresh(quantum, tick_limit),
            next_txn: 1,
            sync_depth: Seq::new(MAX_THREADS as nat, |i: int| 0u8),
            loans: slots::empty(MAX_THREADS as nat),
        }
    }

    /// Returned to its starting state. What happens on the CPU is still attributed
    /// to what it was.
    pub open spec fn renewed(self, quantum: u32, tick_limit: u64) -> CpuView {
        let c = CpuView::fresh(quantum, tick_limit);
        CpuView { sched: c.sched.with_cause(self.sched.cause), ..c }
    }

    pub open spec fn wf(self) -> bool {
        &&& self.sched.wf()
        &&& self.sync_depth.len() == MAX_THREADS
        &&& self.loans.len() == MAX_THREADS
    }
}

impl View for CpuLocal {
    type V = CpuView;

    open spec fn view(&self) -> CpuView {
        CpuView {
            sched: self.sched@,
            next_txn: self.next_txn,
            sync_depth: self.sync_depth@,
            loans: self.loans@,
        }
    }
}

impl CpuLocal {
    pub open spec fn wf(&self) -> bool {
        self.sched.wf() && self@.wf()
    }

    fn new(half: usize, quantum: u32, tick_limit: u64) -> (c: CpuLocal)
        ensures
            c.wf(),
            c.half == half,
            c@ == CpuView::fresh(quantum, tick_limit),
    {
        let c = CpuLocal {
            sched: Scheduler::new(quantum, tick_limit),
            half,
            next_txn: 1,
            sync_depth: vec![0u8; MAX_THREADS],
            loans: slots::empty_slots(MAX_THREADS),
        };
        assert(c@ =~= CpuView::fresh(quantum, tick_limit));
        c
    }
}

/// Where each thread that entered a blocking operation was, by CPU and slot.
/// Never cleared: a record outlives its thread, and the scheduler that owns the
/// slot resolves that.
pub struct Residents {
    /// Row by row, [`MAX_THREADS`] to a CPU.
    rows: Vec<ThreadId>,
}

impl View for Residents {
    type V = Seq<ThreadId>;

    closed spec fn view(&self) -> Seq<ThreadId> {
        self.rows@
    }
}

/// The places in the residence record.
pub const RESIDENT_PLACES: usize = 512;

/// The predicate of the record of `id`.
pub open spec fn is_id(id: ThreadId) -> spec_fn(ThreadId) -> bool {
    |t: ThreadId| t == id
}

/// The row of `cpu`.
pub open spec fn resident_row(rows: Seq<ThreadId>, cpu: int) -> Seq<ThreadId> {
    rows.subrange(cpu * MAX_THREADS, (cpu + 1) * MAX_THREADS)
}

/// Where `id` was last recorded. Only the row of the CPU that minted it is
/// looked at.
pub open spec fn recorded_at(rows: Seq<ThreadId>, id: ThreadId) -> Option<(u32, usize)> {
    let cpu = id.home();
    if id.0 == ThreadId::UNASSIGNED || cpu >= MAX_CPUS {
        None
    } else {
        let slot = slots::first(resident_row(rows, cpu), is_id(id));
        if slot < MAX_THREADS {
            Some((cpu as u32, slot as usize))
        } else {
            None
        }
    }
}

/// The record with `id` in `slot` of `cpu`, if there is such a place.
pub open spec fn with_resident(
    rows: Seq<ThreadId>,
    cpu: u32,
    slot: usize,
    id: ThreadId,
) -> Seq<ThreadId> {
    if cpu < MAX_CPUS && slot < MAX_THREADS {
        rows.update(cpu * MAX_THREADS + slot, id)
    } else {
        rows
    }
}

impl Residents {
    pub open spec fn wf(&self) -> bool {
        self@.len() == RESIDENT_PLACES
    }

    fn new() -> (r: Residents)
        ensures
            r.wf(),
            r@ == Seq::new(RESIDENT_PLACES as nat, |i: int| ThreadId(ThreadId::UNASSIGNED)),
    {
        let r = Residents { rows: vec![ThreadId(ThreadId::UNASSIGNED); RESIDENT_PLACES] };
        assert(r@ =~= Seq::new(RESIDENT_PLACES as nat, |i: int| ThreadId(ThreadId::UNASSIGNED)));
        r
    }

    /// Records that `id` is in `slot` of `cpu`'s scheduler.
    fn record(&mut self, cpu: u32, slot: usize, id: ThreadId)
        requires
            old(self).wf(),
        ensures
            final(self).wf(),
            final(self)@ == with_resident(old(self)@, cpu, slot, id),
    {
        if (cpu as usize) < MAX_CPUS && slot < MAX_THREADS {
            let at: usize = cpu as usize * MAX_THREADS + slot;
            self.rows[at] = id;
        }
    }

    /// The CPU and slot `id` was last recorded at, or `None`.
    fn locate(&self, id: ThreadId) -> (r: Option<(u32, usize)>)
        requires
            self.wf(),
        ensures
            r == recorded_at(self@, id),
    {
        if id.0 == ThreadId::UNASSIGNED {
            return None;
        }
        let cpu: u32 = id.cpu();
        if cpu as usize >= MAX_CPUS {
            return None;
        }
        let start: usize = cpu as usize * MAX_THREADS;
        let ghost row = resident_row(self@, cpu as int);
        let mut slot: usize = 0;
        while slot < MAX_THREADS
            invariant
                self.wf(),
                cpu < MAX_CPUS,
                cpu == id.home(),
                start == cpu * MAX_THREADS,
                row == resident_row(self@, cpu as int),
                row.len() == MAX_THREADS,
                slot <= MAX_THREADS,
                id.0 != ThreadId::UNASSIGNED,
                forall|j: int| 0 <= j < slot ==> !is_id(id)(#[trigger] row[j]),
            decreases MAX_THREADS - slot,
        {
            assert(row[slot as int] == self@[start + slot]);
            if self.rows[start + slot] == id {
                proof {
                    slots::lemma_first_is(row, is_id(id), slot as int);
                }
                return Some((cpu, slot));
            }
            slot += 1;
        }
        proof {
            slots::lemma_first_is(row, is_id(id), slot as int);
        }
        None
    }
}

/// The tables every CPU shares.
pub struct Machine {
    pub channels: ChannelTable,
    pub waits: WaitSet,
    pub ports: PortTable,
    pub jobs: JobTable,
    pub devices: DeviceTable,
    pub memory: MemoryTable,
    pub page_ins: Vec<Option<PageInFlight>>,
    pub expired_callers: Vec<Option<ThreadId>>,
    pub page_in_supervisor: PageInSupervisor,
    pub cache_budget: WriteBackReservation,
    pub paging: SelfPagingGraph,
    pub lifecycle: LifecycleTable,
    pub wake: WakeState,
    /// The thread parked in a suspend commit: the machine being asleep.
    pub sleeper: Option<ThreadId>,
    /// What ended the last sleep.
    pub resumed_by: Option<ObjectId>,
    pub residents: Residents,
    /// Wakeups for threads other CPUs own, oldest first.
    pub posted: Vec<Posted>,
    /// The next id to mint.
    pub minted: u32,
}

/// What a [`Machine`] holds.
#[verifier::ext_equal]
pub struct MachineView {
    pub channels: ChannelsView,
    pub waits: Seq<Waiter>,
    pub ports: PortsView,
    pub jobs: JobsView,
    pub devices: DevicesView,
    pub memory: MemoryView,
    pub page_ins: Seq<Option<PageInFlight>>,
    pub expired_callers: Seq<Option<ThreadId>>,
    pub page_in_supervisor: PageInSupervisor,
    pub cache_budget: WriteBackReservation,
    pub paging: GraphView,
    pub lifecycle: Seq<Option<LifecycleRecord>>,
    pub wake: WakeView,
    pub sleeper: Option<ThreadId>,
    pub resumed_by: Option<ObjectId>,
    pub residents: Seq<ThreadId>,
    pub posted: Seq<Posted>,
    pub minted: u32,
}

impl View for Machine {
    type V = MachineView;

    open spec fn view(&self) -> MachineView {
        MachineView {
            channels: self.channels@,
            waits: self.waits@,
            ports: self.ports@,
            jobs: self.jobs@,
            devices: self.devices@,
            memory: self.memory@,
            page_ins: self.page_ins@,
            expired_callers: self.expired_callers@,
            page_in_supervisor: self.page_in_supervisor,
            cache_budget: self.cache_budget,
            paging: self.paging@,
            lifecycle: self.lifecycle@,
            wake: self.wake@,
            sleeper: self.sleeper,
            resumed_by: self.resumed_by,
            residents: self.residents@,
            posted: self.posted@,
            minted: self.minted,
        }
    }
}

impl MachineView {
    /// The machine before anything happens.
    pub open spec fn fresh() -> MachineView {
        MachineView {
            channels: slots::empty(crate::config::MAX_CHANNELS as nat),
            waits: Seq::empty(),
            ports: slots::empty(crate::config::MAX_PORTS as nat),
            jobs: slots::empty(crate::job::MAX_JOBS as nat),
            devices: slots::empty(crate::config::MAX_DEVICES as nat),
            memory: MemoryView::fresh(),
            page_ins: slots::empty(MAX_PAGERS as nat),
            expired_callers: slots::empty(MAX_PAGERS as nat),
            page_in_supervisor: PageInSupervisor {
                deadline: 1,
                escalate_after: 3,
                misses: 0,
                escalations: 0,
            },
            cache_budget: WriteBackReservation {
                capacity: CACHE_FRAME_BUDGET,
                reserved: CACHE_WRITE_BACK_RESERVE,
                ordinary_in_use: 0,
                writeback_in_use: 0,
            },
            paging: GraphView { bindings: Seq::empty(), waits: Seq::empty() },
            lifecycle: slots::empty(crate::lifecycle::MAX_TRACKED as nat),
            wake: WakeView::fresh(),
            sleeper: None,
            resumed_by: None,
            residents: Seq::new(
                RESIDENT_PLACES as nat,
                |i: int| ThreadId(ThreadId::UNASSIGNED),
            ),
            posted: Seq::empty(),
            minted: mint::MINTED_OBJECT_ID_BASE,
        }
    }
}

impl Machine {
    /// Every table is sound.
    pub open spec fn wf(&self) -> bool {
        &&& self.channels.wf()
        &&& self.waits.wf()
        &&& self.ports.wf()
        &&& self.jobs.wf()
        &&& self.devices.wf()
        &&& self.memory.wf()
        &&& self.page_ins@.len() == MAX_PAGERS
        &&& forall|i: int|
            0 <= i < MAX_PAGERS ==> ((#[trigger] self.page_ins@[i]) matches Some(f) ==> f.from.side
                < 2)
        &&& self.expired_callers@.len() == MAX_PAGERS
        &&& self.page_in_supervisor.wf()
        &&& self.cache_budget.wf()
        &&& self.paging.wf()
        &&& self.lifecycle.wf()
        &&& self.wake.wf()
        &&& self.residents.wf()
    }

    fn new() -> (m: Machine)
        ensures
            m.wf(),
            m@ == MachineView::fresh(),
    {
        let m = Machine {
            channels: ChannelTable::new(),
            waits: WaitSet::new(),
            ports: PortTable::new(),
            jobs: JobTable::new(),
            devices: DeviceTable::new(),
            memory: MemoryTable::new(),
            page_ins: slots::empty_slots(MAX_PAGERS),
            expired_callers: slots::empty_slots(MAX_PAGERS),
            page_in_supervisor: PageInSupervisor::new(1, 3),
            cache_budget: WriteBackReservation::new(CACHE_FRAME_BUDGET, CACHE_WRITE_BACK_RESERVE),
            paging: SelfPagingGraph::new(),
            lifecycle: LifecycleTable::new(),
            wake: WakeState::new(),
            sleeper: None,
            resumed_by: None,
            residents: Residents::new(),
            posted: Vec::new(),
            minted: mint::MINTED_OBJECT_ID_BASE,
        };
        assert(m@ =~= MachineView::fresh());
        m
    }
}

/// The machine's tables, every CPU's half, and who is inside.
pub struct Executive {
    pub cpus: Vec<CpuLocal>,
    pub machine: Machine,
    /// Who is inside a blocking operation. A restart does not clear it.
    pub occupancy: Occupancy,
}

/// What an [`Executive`] holds.
#[verifier::ext_equal]
pub struct ExecView {
    pub cpus: Seq<CpuView>,
    pub machine: MachineView,
    pub occupancy: OccupancyView,
}

/// The half of the executive `cpu` uses: its own, or the boot CPU's when the
/// number is no CPU's.
pub open spec fn seat(cpu: u32) -> int {
    if cpu < MAX_CPUS {
        cpu as int
    } else {
        BOOT_CPU as int
    }
}

/// The predicate of a CPU that has a thread called `id`, exited or not.
pub open spec fn keeps(id: ThreadId) -> spec_fn(CpuView) -> bool {
    |c: CpuView| c.sched.place_of(id) < MAX_THREADS
}

impl ExecView {
    /// The scheduler `cpu` uses.
    pub open spec fn sched(self, cpu: u32) -> SchedView {
        self.cpus[seat(cpu)].sched
    }

    /// With the scheduler of `cpu` replaced.
    pub open spec fn with_sched(self, cpu: u32, sched: SchedView) -> ExecView {
        self.with_cpu(cpu, CpuView { sched, ..self.cpus[seat(cpu)] })
    }

    /// With the half of `cpu` replaced.
    pub open spec fn with_cpu(self, cpu: u32, c: CpuView) -> ExecView {
        ExecView { cpus: self.cpus.update(seat(cpu), c), ..self }
    }

    /// With the channels replaced.
    pub open spec fn with_channels(self, channels: ChannelsView) -> ExecView {
        ExecView { machine: MachineView { channels, ..self.machine }, ..self }
    }

    /// With the ports replaced.
    pub open spec fn with_ports(self, ports: PortsView) -> ExecView {
        ExecView { machine: MachineView { ports, ..self.machine }, ..self }
    }

    /// The thread running on `cpu`, if one is.
    pub open spec fn running(self, cpu: u32) -> Option<Thread> {
        match self.sched(cpu).current {
            Some(i) => self.sched(cpu).thread(i),
            None => None,
        }
    }

    /// The identity of the thread running on `cpu`, if one is.
    pub open spec fn running_id(self, cpu: u32) -> Option<ThreadId> {
        match self.running(cpu) {
            Some(t) => Some(t.id),
            None => None,
        }
    }

    /// The causal id that what happens on `cpu` is attributed to.
    pub open spec fn cause(self, cpu: u32) -> u64 {
        self.sched(cpu).cause
    }

    /// With what happens on `cpu` attributed to `cause` until the next switch or
    /// adoption there.
    pub open spec fn rerooted(self, cpu: u32, cause: u64) -> ExecView {
        self.with_sched(cpu, self.sched(cpu).with_cause(cause))
    }

    /// The same if `worked`: what finds nothing to do does not reroot anybody's
    /// trace.
    pub open spec fn rerooted_if(self, worked: bool, cpu: u32, cause: u64) -> ExecView {
        if worked {
            self.rerooted(cpu, cause)
        } else {
            self
        }
    }

    /// Where `id` is, seen from `cpu`.
    pub open spec fn residence(self, cpu: u32, id: ThreadId) -> Residence {
        let slot = self.sched(cpu).slot_of(id);
        if slot < MAX_THREADS {
            Residence::Here(slot as usize)
        } else {
            match recorded_at(self.machine.residents, id) {
                Some((other, slot)) => if other != cpu {
                    Residence::Elsewhere { cpu: other, slot }
                } else {
                    Residence::Gone
                },
                None => Residence::Gone,
            }
        }
    }

    /// The first CPU that has a thread called `id`, exited or not, or the number
    /// of CPUs.
    pub open spec fn keeper(self, id: ThreadId) -> int {
        slots::first(self.cpus, keeps(id))
    }

    /// With a wakeup posted for another CPU.
    pub open spec fn posted(self, cpu: u32, slot: usize, id: ThreadId) -> ExecView {
        ExecView {
            machine: MachineView {
                posted: self.machine.posted.push(Posted { cpu, slot, id }),
                ..self.machine
            },
            ..self
        }
    }

    /// With `id` made runnable wherever it is: queued here, posted there, or
    /// nothing at all when it is gone.
    pub open spec fn woken(self, cpu: u32, id: ThreadId) -> ExecView {
        match self.residence(cpu, id) {
            Residence::Here(i) => self.with_sched(cpu, self.sched(cpu).unblocked(i)),
            Residence::Elsewhere { cpu: other, slot } => self.posted(other, slot, id),
            Residence::Gone => self,
        }
    }

    /// With `id`, if there is one, made runnable.
    pub open spec fn woken_if(self, cpu: u32, id: Option<ThreadId>) -> ExecView {
        match id {
            Some(id) => self.woken(cpu, id),
            None => self,
        }
    }

    /// With every thread of `ids` made runnable, in order.
    pub open spec fn woken_all(self, cpu: u32, ids: Seq<ThreadId>) -> ExecView
        decreases ids.len(),
    {
        if ids.len() == 0 {
            self
        } else {
            self.woken_all(cpu, ids.drop_last()).woken(cpu, ids.last())
        }
    }

    /// With the place of the running thread recorded, so another CPU can wake
    /// it.
    pub open spec fn resident(self, cpu: u32) -> ExecView {
        match self.running_id(cpu) {
            Some(id) => ExecView {
                machine: MachineView {
                    residents: with_resident(
                        self.machine.residents,
                        cpu,
                        self.sched(cpu).current->0,
                        id,
                    ),
                    ..self.machine
                },
                ..self
            },
            None => self,
        }
    }

    /// With the running thread inside `site` and its place recorded.
    pub open spec fn entered(self, cpu: u32, site: Site) -> ExecView {
        ExecView {
            occupancy: self.occupancy.with_entry(cpu, site.number()),
            ..self.resident(cpu)
        }
    }

    /// With the running thread out of `site` again.
    pub open spec fn left(self, cpu: u32, site: Site) -> ExecView {
        ExecView { occupancy: self.occupancy.with_exit(cpu, site.number()), ..self }
    }

    /// With the running thread blocked and the next one switched to.
    pub open spec fn parked(self, cpu: u32) -> ExecView {
        self.with_sched(cpu, self.sched(cpu).parked(ThreadState::Blocked))
    }

    /// The switch that parking owes.
    pub open spec fn park_switch(self, cpu: u32) -> Switch {
        self.sched(cpu).park_switch(ThreadState::Blocked)
    }

    /// With the running thread blocked and `slot` switched to.
    pub open spec fn handed_off(self, cpu: u32, slot: usize) -> ExecView {
        self.with_sched(
            cpu,
            self.sched(cpu).with_current(ThreadState::Blocked).switched(Some(slot)),
        )
    }

    /// The switch that the handoff owes.
    pub open spec fn handoff_switch(self, cpu: u32, slot: usize) -> Switch {
        self.sched(cpu).with_current(ThreadState::Blocked).switch(Some(slot))
    }

    /// With the running thread, if any, carrying the cause `correlation`, which
    /// is left alone when it is 0.
    pub open spec fn adopting(self, cpu: u32, correlation: u64) -> ExecView {
        match self.sched(cpu).current {
            Some(i) => if correlation != 0 {
                self.with_sched(cpu, self.sched(cpu).with_correlation(i, correlation))
            } else {
                self
            },
            None => self,
        }
    }

    /// Whether `cpu` can still count a switch.
    pub open spec fn can_switch(self, cpu: u32) -> bool {
        self.sched(cpu).switches < u64::MAX
    }
}

impl View for Executive {
    type V = ExecView;

    open spec fn view(&self) -> ExecView {
        ExecView {
            cpus: Seq::new(self.cpus@.len(), |i: int| self.cpus@[i]@),
            machine: self.machine@,
            occupancy: self.occupancy@,
        }
    }
}

impl Executive {
    /// Every table and every CPU's half is sound.
    pub open spec fn wf(&self) -> bool {
        &&& self.machine.wf()
        &&& self.occupancy.wf()
        &&& self.cpus@.len() == MAX_CPUS
        &&& forall|i: int|
            0 <= i < MAX_CPUS ==> (#[trigger] self.cpus@[i]).wf() && self.cpus@[i].half == i
    }

    pub fn new(quantum: u32, tick_limit: u64) -> (e: Executive)
        ensures
            e.wf(),
            e@ == (ExecView {
                cpus: Seq::new(
                    MAX_CPUS as nat,
                    |i: int| CpuView::fresh(quantum, tick_limit),
                ),
                machine: MachineView::fresh(),
                occupancy: OccupancyView::fresh(),
            }),
    {
        let mut cpus: Vec<CpuLocal> = Vec::new();
        while cpus.len() < MAX_CPUS
            invariant
                cpus@.len() <= MAX_CPUS,
                forall|i: int|
                    0 <= i < cpus@.len() ==> (#[trigger] cpus@[i]).wf() && cpus@[i].half == i
                        && cpus@[i]@ == CpuView::fresh(quantum, tick_limit),
            decreases MAX_CPUS - cpus@.len(),
        {
            let half: usize = cpus.len();
            cpus.push(CpuLocal::new(half, quantum, tick_limit));
        }
        let e = Executive { cpus, machine: Machine::new(), occupancy: Occupancy::new() };
        assert(e@ =~= ExecView {
            cpus: Seq::new(MAX_CPUS as nat, |i: int| CpuView::fresh(quantum, tick_limit)),
            machine: MachineView::fresh(),
            occupancy: OccupancyView::fresh(),
        });
        e
    }

    /// Returns the machine's tables to their starting state, and the half of
    /// `cpu` with them; every other CPU's is left alone.
    pub fn restart(&mut self, cpu: u32, quantum: u32, tick_limit: u64)
        requires
            old(self).wf(),
        ensures
            final(self).wf(),
            final(self)@ == (ExecView { machine: MachineView::fresh(), ..old(self)@ }).with_cpu(
                cpu,
                old(self)@.cpus[seat(cpu)].renewed(quantum, tick_limit),
            ),
    {
        self.machine = Machine::new();
        self.adopt_cpu(cpu, quantum, tick_limit);
    }

    /// Returns only the half of `cpu` to its starting state: what a CPU that
    /// reaches the executive for the first time wants.
    pub fn adopt_cpu(&mut self, cpu: u32, quantum: u32, tick_limit: u64)
        requires
            old(self).wf(),
        ensures
            final(self).wf(),
            final(self)@ == old(self)@.with_cpu(
                cpu,
                old(self)@.cpus[seat(cpu)].renewed(quantum, tick_limit),
            ),
    {
        let i: usize = seat_of(cpu);
        let cause: u64 = self.current_cause(cpu);
        let mut half: CpuLocal = CpuLocal::new(i, quantum, tick_limit);
        half.sched.set_cause(cause);
        self.cpus[i] = half;
        assert(self@ =~= old(self)@.with_cpu(
            cpu,
            old(self)@.cpus[seat(cpu)].renewed(quantum, tick_limit),
        ));
    }

    /// The scheduler of `cpu`.
    pub fn scheduler(&self, cpu: u32) -> (s: &Scheduler)
        requires
            self.wf(),
        ensures
            s.wf(),
            s@ == self@.sched(cpu),
    {
        let i: usize = seat_of(cpu);
        assert(self@.cpus[i as int] == self.cpus@[i as int]@);
        &self.cpus[i].sched
    }

    /// Which half the scheduler of `cpu` is in, as that half says.
    pub fn half_of(&self, cpu: u32) -> (h: usize)
        requires
            self.wf(),
        ensures
            h == seat(cpu),
    {
        let i: usize = seat_of(cpu);
        assert(self.cpus@[i as int].half == i);
        self.cpus[i].half
    }

    /// The scheduler of `cpu`, to change.
    pub fn scheduler_at(&mut self, cpu: u32) -> (s: &mut Scheduler)
        requires
            old(self).wf(),
        ensures
            (*s).wf(),
            (*s)@ == old(self)@.sched(cpu),
            final(self)@ == old(self)@.with_sched(cpu, (*final(s))@),
            (*final(s)).wf() ==> final(self).wf(),
    {
        let i: usize = seat_of(cpu);
        assert(self@.cpus[i as int] == self.cpus@[i as int]@);
        let s = &mut self.cpus[i].sched;
        assert(after_borrow(self)@ =~= old(self)@.with_sched(cpu, (*final(s))@));
        s
    }

    /// The thread running on `cpu`.
    pub(crate) fn current_id(&self, cpu: u32) -> (r: Option<ThreadId>)
        requires
            self.wf(),
        ensures
            r == self@.running_id(cpu),
    {
        let s = self.scheduler(cpu);
        match s.current() {
            Some(i) => s.thread_id(i),
            None => None,
        }
    }

    /// The causal id that what happens on `cpu` is attributed to.
    pub fn current_cause(&self, cpu: u32) -> (c: u64)
        requires
            self.wf(),
        ensures
            c == self@.cause(cpu),
    {
        self.scheduler(cpu).cause()
    }

    /// Attributes what happens on `cpu` to the freshly minted `cause`: something
    /// outside the running trace began it. Lasts until the next switch or
    /// adoption there.
    pub fn reroot(&mut self, cpu: u32, cause: u64)
        requires
            old(self).wf(),
        ensures
            final(self).wf(),
            final(self)@ == old(self)@.rerooted(cpu, cause),
    {
        self.scheduler_at(cpu).set_cause(cause);
    }

    /// Where the thread `id` is: the scheduler of `cpu`, another CPU's, or
    /// nowhere at all. A record naming `cpu` itself, when the local lookup
    /// failed, is a thread that exited here.
    pub fn locate_thread(&self, cpu: u32, id: ThreadId) -> (r: Residence)
        requires
            self.wf(),
        ensures
            r == self@.residence(cpu, id),
    {
        if let Some(i) = self.scheduler(cpu).index_of(id) {
            return Residence::Here(i);
        }
        match self.machine.residents.locate(id) {
            Some((other, slot)) => if other != cpu {
                Residence::Elsewhere { cpu: other, slot }
            } else {
                Residence::Gone
            },
            None => Residence::Gone,
        }
    }

    /// The CPU that has the thread called `id`, exited or not.
    pub(crate) fn keeper_of(&self, id: ThreadId) -> (r: Option<u32>)
        requires
            self.wf(),
        ensures
            match r {
                Some(cpu) => cpu == self@.keeper(id) && cpu < MAX_CPUS,
                None => self@.keeper(id) == MAX_CPUS,
            },
    {
        let mut cpu: u32 = 0;
        while (cpu as usize) < MAX_CPUS
            invariant
                self.wf(),
                cpu <= MAX_CPUS,
                forall|c: int| 0 <= c < cpu ==> !keeps(id)(#[trigger] self@.cpus[c]),
            decreases MAX_CPUS - cpu,
        {
            proof {
                slots::lemma_first(self@.sched(cpu).threads, crate::sched::known_as(id));
            }
            if self.scheduler(cpu).lookup(id).is_some() {
                proof {
                    slots::lemma_first_is(self@.cpus, keeps(id), cpu as int);
                }
                return Some(cpu);
            }
            cpu += 1;
        }
        proof {
            slots::lemma_first_is(self@.cpus, keeps(id), cpu as int);
        }
        None
    }

    /// Makes `id` runnable wherever it is, and says where that was.
    pub(crate) fn wake_thread(&mut self, cpu: u32, id: ThreadId) -> (r: Residence)
        requires
            old(self).wf(),
        ensures
            final(self).wf(),
            r == old(self)@.residence(cpu, id),
            final(self)@ == old(self)@.woken(cpu, id),
    {
        let at = self.locate_thread(cpu, id);
        match at {
            Residence::Here(i) => {
                proof {
                    slots::lemma_first(
                        self@.sched(cpu).threads,
                        crate::sched::live_as(id),
                    );
                }
                self.scheduler_at(cpu).unblock(i);
            },
            Residence::Elsewhere { cpu: other, slot } => {
                self.post(other, slot, id);
            },
            Residence::Gone => {},
        }
        at
    }

    /// Posts a wakeup for the CPU that owns the thread.
    pub(crate) fn post(&mut self, cpu: u32, slot: usize, id: ThreadId)
        requires
            old(self).wf(),
        ensures
            final(self).wf(),
            final(self)@ == old(self)@.posted(cpu, slot, id),
    {
        self.machine.posted.push(Posted { cpu, slot, id });
        assert(self@ =~= old(self)@.posted(cpu, slot, id));
    }

    pub(crate) fn wake_if(&mut self, cpu: u32, id: Option<ThreadId>)
        requires
            old(self).wf(),
        ensures
            final(self).wf(),
            final(self)@ == old(self)@.woken_if(cpu, id),
    {
        if let Some(id) = id {
            let _ = self.wake_thread(cpu, id);
        }
    }

    /// Records where the running thread is, so a CPU that holds only its
    /// identity can find it. Done on the way into every operation that can
    /// block, before the identity is published anywhere.
    pub(crate) fn note_residence(&mut self, cpu: u32)
        requires
            old(self).wf(),
        ensures
            final(self).wf(),
            final(self)@ == old(self)@.resident(cpu),
    {
        let current: Option<usize> = self.scheduler(cpu).current();
        if let Some(slot) = current {
            if let Some(id) = self.current_id(cpu) {
                self.machine.residents.record(cpu, slot, id);
                assert(self@ =~= old(self)@.resident(cpu));
            }
        }
    }

    /// Enters a blocking operation: marks the running thread as inside it, and
    /// records where it is so another CPU can wake it. The two go together: what
    /// can suspend a thread is exactly what can leave its identity for another
    /// CPU to find.
    pub(crate) fn enter_blocking(&mut self, cpu: u32, site: Site)
        requires
            old(self).wf(),
        ensures
            final(self).wf(),
            final(self)@ == old(self)@.entered(cpu, site),
            final(self)@.can_switch(cpu) == old(self)@.can_switch(cpu),
    {
        self.note_residence(cpu);
        mark_entry(&mut self.occupancy, cpu, site);
        assert(self@ =~= old(self)@.entered(cpu, site));
    }

    /// Leaves a blocking operation.
    pub(crate) fn leave_blocking(&mut self, cpu: u32, site: Site)
        requires
            old(self).wf(),
        ensures
            final(self).wf(),
            final(self)@ == old(self)@.left(cpu, site),
    {
        mark_exit(&mut self.occupancy, cpu, site);
        assert(self@ =~= old(self)@.left(cpu, site));
    }

    /// Parks the running thread.
    pub(crate) fn park_current(&mut self, cpu: u32) -> (s: Switch)
        requires
            old(self).wf(),
            old(self)@.can_switch(cpu),
        ensures
            final(self).wf(),
            final(self)@ == old(self)@.parked(cpu),
            s == old(self)@.park_switch(cpu),
    {
        self.scheduler_at(cpu).block_current()
    }

    /// Hands the CPU to `slot`.
    pub(crate) fn park_handoff_to(&mut self, cpu: u32, slot: usize) -> (s: Switch)
        requires
            old(self).wf(),
            old(self)@.can_switch(cpu),
            old(self)@.sched(cpu).runnable(slot),
        ensures
            final(self).wf(),
            final(self)@ == old(self)@.handed_off(cpu, slot),
            s == old(self)@.handoff_switch(cpu, slot),
    {
        self.scheduler_at(cpu).handoff_to(slot)
    }

    /// Adopts a just-dequeued message's causal id onto the receiving thread. A
    /// message with no recorded cause leaves the receiver's id alone.
    pub(crate) fn adopt_correlation(&mut self, cpu: u32, correlation: u64)
        requires
            old(self).wf(),
        ensures
            final(self).wf(),
            final(self)@ == old(self)@.adopting(cpu, correlation),
    {
        if correlation == 0 {
            return;
        }
        let current: Option<usize> = self.scheduler(cpu).current();
        if let Some(i) = current {
            let _ = self.scheduler_at(cpu).set_thread_correlation(i, correlation);
        }
    }

    /// Adds a thread to the scheduler of `cpu`.
    pub fn add_thread(&mut self, cpu: u32, thread: Thread, correlation: u64) -> (r: Result<
        usize,
        KError,
    >)
        requires
            old(self).wf(),
        ensures
            final(self).wf(),
            match r {
                Ok(idx) => {
                    let v = old(self)@.sched(cpu);
                    &&& idx == v.vacancy()
                    &&& idx < MAX_THREADS
                    &&& v.ready.len() < MAX_THREADS
                    &&& final(self)@ == old(self)@.with_sched(
                        cpu,
                        SchedView {
                            threads: v.threads.update(
                                idx as int,
                                Some(
                                    Thread { state: ThreadState::Ready, correlation, ..thread },
                                ),
                            ),
                            ready: v.ready.push(idx),
                            ..v
                        },
                    )
                },
                Err(e) => {
                    let v = old(self)@.sched(cpu);
                    &&& e == KError::OutOfMemory
                    &&& final(self)@ == old(self)@
                    &&& v.vacancy() == MAX_THREADS || v.ready.len() == MAX_THREADS
                },
            },
    {
        let r = self.scheduler_at(cpu).add_thread(thread, correlation);
        proof {
            let i = seat(cpu);
            assert(old(self)@.with_sched(cpu, old(self)@.sched(cpu)) =~= old(self)@);
        }
        r
    }

    /// Total context switches performed on `cpu`.
    pub fn switch_count(&self, cpu: u32) -> (n: u64)
        requires
            self.wf(),
        ensures
            n == self@.sched(cpu).switches,
    {
        self.scheduler(cpu).switch_count()
    }
}

/// The half of the executive `cpu` uses.
pub(crate) fn seat_of(cpu: u32) -> (i: usize)
    ensures
        i == seat(cpu),
        i < MAX_CPUS,
{
    if (cpu as usize) < MAX_CPUS {
        cpu as usize
    } else {
        BOOT_CPU as usize
    }
}

} // verus!
