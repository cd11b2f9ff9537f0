//! Processes: an address space, a handle table, threads by identity, and the
//! register windows and memory mappings that must leave with the capability
//! that authorised them.
//!
//! Dropping a process forgets its handles without releasing the objects they
//! name: only an explicit close releases.
use vstd::prelude::*;
use crate::config::FRAME_SIZE;
use crate::error::KError;
use crate::frame::{charged, lemma_charged, lemma_charged_nothing, FrameSource};
use crate::handle::{HandleTable, HandleTableView};
use crate::object::ObjectId;
use crate::slots;
use crate::space::{Space, SpaceOp};
use crate::thread::ThreadId;

verus! {

/// Threads a single process may hold.
pub const MAX_THREADS_PER_PROCESS: usize = 8;

/// Processes the table holds.
pub const MAX_PROCESSES: usize = 16;

/// Device register windows one process may hold open at once.
pub const MAX_DEVICE_WINDOWS: usize = 8;

/// Memory grants one process may hold mapped at once.
pub const MAX_MEMORY_MAPPINGS: usize = 8;

/// Threads that may wait for one process to exit.
pub const MAX_PROCESS_WAITERS: usize = 4;

/// One register window a process holds: which device it belongs to, where it
/// was mapped, and how far it reaches.
#[derive(Clone, Copy, PartialEq, Eq, Debug, Structural)]
pub struct DeviceWindow {
    pub object: ObjectId,
    pub va: u64,
    pub pages: u64,
}

/// How a device capability left the process that held its register window.
#[derive(Clone, Copy, PartialEq, Eq, Debug, Structural)]
pub enum WindowRevokeReason {
    /// The capability was transferred to another process.
    Transferred,
    /// The last handle naming the device was closed.
    HandleClosed,
    /// The holder is gone.
    HolderGone,
    /// The device is gone, and the holder had no say in it.
    Removed,
}

impl WindowRevokeReason {
    /// The number this reason is reported as.
    pub open spec fn number(self) -> u64 {
        match self {
            WindowRevokeReason::Transferred => 1,
            WindowRevokeReason::HandleClosed => 2,
            WindowRevokeReason::HolderGone => 3,
            WindowRevokeReason::Removed => 4,
        }
    }

    /// The number this reason is reported as. The values are ABI.
    pub fn code(self) -> (n: u64)
        ensures
            n == self.number(),
    {
        match self {
            WindowRevokeReason::Transferred => 1,
            WindowRevokeReason::HandleClosed => 2,
            WindowRevokeReason::HolderGone => 3,
            WindowRevokeReason::Removed => 4,
        }
    }
}

/// One memory object's pages, mapped into a process.
#[derive(Clone, Copy, PartialEq, Eq, Debug, Structural)]
pub struct MemoryMapping {
    pub object: ObjectId,
    pub va: u64,
    pub pages: u64,
}

/// A process's lifecycle state.
#[derive(Clone, Copy, PartialEq, Eq, Debug, Structural)]
pub enum ProcessState {
    /// Created and being populated; not yet started.
    Created,
    /// Started; at least one thread has run.
    Running,
    /// Terminated with an exit code.
    Exited(i32),
}

/// A process.
pub struct Process<S: Space> {
    id: ObjectId,
    space: S,
    handles: HandleTable,
    threads: Vec<Option<ThreadId>>,
    waiters: Vec<ThreadId>,
    state: ProcessState,
    /// The job this process belongs to; `None` until placed in one.
    job: Option<ObjectId>,
    /// Device register windows this process has mapped, so a departing
    /// capability can take its mapping with it.
    device_windows: Vec<Option<DeviceWindow>>,
    /// Memory grants this process has mapped.
    memory_mappings: Vec<Option<MemoryMapping>>,
}

/// What a [`Process`] holds.
#[verifier::ext_equal]
#[verifier::reject_recursive_types(S)]
pub struct ProcessView<S> {
    pub id: ObjectId,
    pub space: S,
    pub handles: HandleTableView,
    pub threads: Seq<Option<ThreadId>>,
    pub waiters: Seq<ThreadId>,
    pub state: ProcessState,
    pub job: Option<ObjectId>,
    pub device_windows: Seq<Option<DeviceWindow>>,
    pub memory_mappings: Seq<Option<MemoryMapping>>,
}

/// The predicate of a window on `object`.
pub open spec fn window_on(object: ObjectId) -> spec_fn(Option<DeviceWindow>) -> bool {
    |o: Option<DeviceWindow>| o matches Some(w) && w.object == object
}

/// The predicate of the window on `object` at `va`.
pub open spec fn window_at(object: ObjectId, va: u64) -> spec_fn(Option<DeviceWindow>) -> bool {
    |o: Option<DeviceWindow>| o matches Some(w) && w.object == object && w.va == va
}

/// The predicate of a mapping of `object`.
pub open spec fn mapping_of(object: ObjectId) -> spec_fn(Option<MemoryMapping>) -> bool {
    |o: Option<MemoryMapping>| o matches Some(m) && m.object == object
}

/// The predicate of the mapping of `object` at `va`.
pub open spec fn mapping_at(object: ObjectId, va: u64) -> spec_fn(Option<MemoryMapping>) -> bool {
    |o: Option<MemoryMapping>| o matches Some(m) && m.object == object && m.va == va
}

/// `s` with every slot that satisfies `p` emptied.
pub open spec fn swept<T>(s: Seq<Option<T>>, p: spec_fn(Option<T>) -> bool) -> Seq<Option<T>> {
    Seq::new(
        s.len(),
        |i: int|
            if p(s[i]) {
                None
            } else {
                s[i]
            },
    )
}

/// `s` with the first slot that satisfies `p`, if any, emptied.
pub open spec fn without_first<T>(s: Seq<Option<T>>, p: spec_fn(Option<T>) -> bool) -> Seq<
    Option<T>,
> {
    if slots::first(s, p) < s.len() {
        s.update(slots::first(s, p), None)
    } else {
        s
    }
}

/// What the slots that satisfy `p` hold, in order.
pub open spec fn chosen<T>(s: Seq<Option<T>>, p: spec_fn(Option<T>) -> bool) -> Seq<T>
    decreases s.len(),
{
    if s.len() == 0 {
        Seq::empty()
    } else if p(s.last()) {
        chosen(s.drop_last(), p).push(s.last()->0)
    } else {
        chosen(s.drop_last(), p)
    }
}

/// The operations that unmap `windows`, in order.
pub open spec fn unmaps(windows: Seq<DeviceWindow>) -> Seq<SpaceOp> {
    windows.map_values(|w: DeviceWindow| SpaceOp::UnmapDevice { va: w.va, pages: w.pages })
}

/// A register window or a memory mapping that was taken down: of what, where,
/// why, and what unmapping it came to.
#[derive(Clone, Copy, PartialEq, Eq, Debug, Structural)]
pub struct WindowRevoked {
    pub object: ObjectId,
    pub va: u64,
    pub reason: WindowRevokeReason,
    pub failed: Option<KError>,
}

/// What is reported of `windows` on `object`, taken down for `reason` with
/// `outcomes`.
pub open spec fn window_records(
    windows: Seq<DeviceWindow>,
    object: ObjectId,
    reason: WindowRevokeReason,
    outcomes: Seq<Option<KError>>,
) -> Seq<WindowRevoked> {
    Seq::new(
        windows.len(),
        |i: int| WindowRevoked { object, va: windows[i].va, reason, failed: outcomes[i] },
    )
}

/// The distinct objects among the mappings, in the order they first occur.
pub open spec fn mapped(s: Seq<Option<MemoryMapping>>) -> Seq<ObjectId>
    decreases s.len(),
{
    if s.len() == 0 {
        Seq::empty()
    } else {
        let before = mapped(s.drop_last());
        match s.last() {
            Some(m) => if before.contains(m.object) {
                before
            } else {
                before.push(m.object)
            },
            None => before,
        }
    }
}

impl<S> ProcessView<S> {
    /// A process nothing has happened to.
    pub open spec fn fresh(id: ObjectId, space: S) -> ProcessView<S> {
        ProcessView {
            id,
            space,
            handles: HandleTableView::empty(),
            threads: slots::empty(MAX_THREADS_PER_PROCESS as nat),
            waiters: Seq::empty(),
            state: ProcessState::Created,
            job: None,
            device_windows: slots::empty(MAX_DEVICE_WINDOWS as nat),
            memory_mappings: slots::empty(MAX_MEMORY_MAPPINGS as nat),
        }
    }

    /// The process's invariant: every table has its capacity, and a recorded
    /// mapping's length fits the address space.
    pub open spec fn wf(self) -> bool {
        &&& self.handles.wf()
        &&& self.threads.len() == MAX_THREADS_PER_PROCESS
        &&& self.waiters.len() <= MAX_PROCESS_WAITERS
        &&& self.device_windows.len() == MAX_DEVICE_WINDOWS
        &&& self.memory_mappings.len() == MAX_MEMORY_MAPPINGS
        &&& forall|i: int|
            0 <= i < MAX_MEMORY_MAPPINGS ==> ((#[trigger] self.memory_mappings[i]) matches Some(m)
                ==> m.pages * FRAME_SIZE <= u64::MAX)
    }

    /// Whether `thread` is one of this process's.
    pub open spec fn owns(self, thread: ThreadId) -> bool {
        self.threads.contains(Some(thread))
    }
}

impl<S: Space> View for Process<S> {
    type V = ProcessView<S>;

    closed spec fn view(&self) -> ProcessView<S> {
        ProcessView {
            id: self.id,
            space: self.space,
            handles: self.handles@,
            threads: self.threads@,
            waiters: self.waiters@,
            state: self.state,
            job: self.job,
            device_windows: self.device_windows@,
            memory_mappings: self.memory_mappings@,
        }
    }
}

impl<S: Space> Process<S> {
    /// The process's invariant.
    pub open spec fn wf(&self) -> bool {
        self@.wf()
    }

    /// Creates a `Created` process owning `space` and an empty handle table.
    pub fn new(id: ObjectId, space: S) -> (p: Process<S>)
        ensures
            p.wf(),
            p@ == ProcessView::fresh(id, space),
    {
        let p = Process {
            id,
            space,
            handles: HandleTable::new(),
            threads: slots::empty_slots(MAX_THREADS_PER_PROCESS),
            waiters: Vec::new(),
            state: ProcessState::Created,
            job: None,
            device_windows: slots::empty_slots(MAX_DEVICE_WINDOWS),
            memory_mappings: slots::empty_slots(MAX_MEMORY_MAPPINGS),
        };
        assert(p@ =~= ProcessView::fresh(id, space));
        p
    }

    /// Records that this process mapped `object`'s registers at `va`, spanning
    /// `pages`. A full table is [`KError::LimitExceeded`], and the caller must
    /// fail the mapping: a forgotten window is one that revocation could never
    /// find.
    pub fn record_device_window(&mut self, object: ObjectId, va: u64, pages: u64) -> (r: Result<
        (),
        KError,
    >)
        requires
            old(self).wf(),
        ensures
            final(self).wf(),
            ({
                let v = old(self)@;
                let at = slots::first(v.device_windows, slots::free::<DeviceWindow>());
                match r {
                    Ok(_) => {
                        &&& at < MAX_DEVICE_WINDOWS
                        &&& final(self)@ == (ProcessView {
                            device_windows: v.device_windows.update(
                                at,
                                Some(DeviceWindow { object, va, pages }),
                            ),
                            ..v
                        })
                    },
                    Err(e) => {
                        &&& e == KError::LimitExceeded
                        &&& at == MAX_DEVICE_WINDOWS
                        &&& final(self)@ == v
                    },
                }
            }),
    {
        match slots::find_free(&self.device_windows) {
            None => Err(KError::LimitExceeded),
            Some(slot) => {
                self.device_windows[slot] = Some(DeviceWindow { object, va, pages });
                Ok(())
            },
        }
    }

    /// Forgets one window recorded at `va` on `object`, without unmapping
    /// anything: the undo for a mapping that was recorded and then failed.
    pub fn forget_device_window(&mut self, object: ObjectId, va: u64)
        requires
            old(self).wf(),
        ensures
            final(self).wf(),
            final(self)@ == (ProcessView {
                device_windows: without_first(
                    old(self)@.device_windows,
                    window_at(object, va),
                ),
                ..old(self)@
            }),
    {
        let ghost p = window_at(object, va);
        let mut i: usize = 0;
        while i < MAX_DEVICE_WINDOWS
            invariant
                self.wf(),
                *self == *old(self),
                p == window_at(object, va),
                i <= MAX_DEVICE_WINDOWS,
                forall|j: int| 0 <= j < i ==> !p(#[trigger] self@.device_windows[j]),
            decreases MAX_DEVICE_WINDOWS - i,
        {
            if let Some(w) = self.device_windows[i] {
                if w.object == object && w.va == va {
                    proof {
                        slots::lemma_first_is(self@.device_windows, p, i as int);
                    }
                    self.device_windows[i] = None;
                    return;
                }
            }
            i += 1;
        }
        proof {
            slots::lemma_first_is(self@.device_windows, p, i as int);
        }
    }

    /// Removes and returns every window this process holds on `object`: what a
    /// capability's departure has to undo.
    pub fn take_device_windows(&mut self, object: ObjectId) -> (out: Vec<DeviceWindow>)
        requires
            old(self).wf(),
        ensures
            final(self).wf(),
            out@ == chosen(old(self)@.device_windows, window_on(object)),
            final(self)@ == (ProcessView {
                device_windows: swept(old(self)@.device_windows, window_on(object)),
                ..old(self)@
            }),
    {
        let mut out: Vec<DeviceWindow> = Vec::new();
        let mut i: usize = 0;
        let ghost before = self@.device_windows;
        let ghost p = window_on(object);
        assert(chosen(before.take(0), p) =~= Seq::<DeviceWindow>::empty());
        while i < MAX_DEVICE_WINDOWS
            invariant
                self.wf(),
                p == window_on(object),
                before == old(self)@.device_windows,
                before.len() == MAX_DEVICE_WINDOWS,
                i <= MAX_DEVICE_WINDOWS,
                out@ == chosen(before.take(i as int), p),
                self@ == (ProcessView { device_windows: self@.device_windows, ..old(self)@ }),
                forall|j: int|
                    0 <= j < MAX_DEVICE_WINDOWS ==> #[trigger] self@.device_windows[j] == (if j < i
                        && p(before[j]) {
                        None
                    } else {
                        before[j]
                    }),
            decreases MAX_DEVICE_WINDOWS - i,
        {
            proof {
                assert(before.take(i + 1).drop_last() =~= before.take(i as int));
                assert(before.take(i + 1).last() == before[i as int]);
                assert(self@.device_windows[i as int] == before[i as int]);
            }
            if let Some(w) = self.device_windows[i] {
                if w.object == object {
                    out.push(w);
                    self.device_windows[i] = None;
                    assert(self@ =~= ProcessView {
                        device_windows: self@.device_windows,
                        ..old(self)@
                    });
                }
            }
            i += 1;
        }
        proof {
            assert(before.take(i as int) =~= before);
            assert(self@.device_windows =~= swept(before, p));
        }
        out
    }

    /// Revokes this process's register windows on `object`, unless it still
    /// holds a capability naming it: a process that gave one of two handles
    /// away still has the authority. Returns whether the capability departed.
    /// Each window revoked is reported in `log`, with what unmapping it came
    /// to: a failure is reported rather than swallowed.
    pub fn revoke_device_windows_unless_held(
        &mut self,
        object: ObjectId,
        reason: WindowRevokeReason,
        log: &mut Vec<WindowRevoked>,
    ) -> (departed: bool)
        requires
            old(self).wf(),
        ensures
            final(self).wf(),
            departed == !old(self)@.handles.holds(object),
            if departed {
                let v = old(self)@;
                let w = final(self)@;
                let windows = chosen(v.device_windows, window_on(object));
                let outcomes = w.space.unmapped().skip(v.space.unmapped().len() as int);
                &&& w == (ProcessView {
                    device_windows: swept(v.device_windows, window_on(object)),
                    space: w.space,
                    ..v
                })
                &&& w.space.trace() == v.space.trace() + unmaps(windows)
                &&& w.space.unmapped() == v.space.unmapped() + outcomes
                &&& outcomes.len() == windows.len()
                &&& final(log)@ == old(log)@ + window_records(windows, object, reason, outcomes)
            } else {
                final(self)@ == old(self)@ && final(log)@ == old(log)@
            },
    {
        if self.handles.holds(object) {
            return false;
        }
        let ghost v = self@;
        let windows: Vec<DeviceWindow> = self.take_device_windows(object);
        let ghost w = self@;
        let ghost mut outcomes: Seq<Option<KError>> = Seq::empty();
        let mut i: usize = 0;
        assert(v.space.trace() + unmaps(windows@.take(0)) =~= v.space.trace());
        assert(v.space.unmapped() + outcomes =~= v.space.unmapped());
        assert(log@ =~= old(log)@ + window_records(windows@.take(0), object, reason, outcomes));
        while i < windows.len()
            invariant
                i <= windows@.len(),
                self@ == (ProcessView { space: self@.space, ..w }),
                self@.space.trace() == v.space.trace() + unmaps(windows@.take(i as int)),
                outcomes.len() == i,
                self@.space.unmapped() == v.space.unmapped() + outcomes,
                log@ == old(log)@ + window_records(
                    windows@.take(i as int),
                    object,
                    reason,
                    outcomes,
                ),
            decreases windows@.len() - i,
        {
            let win = windows[i];
            let r: Result<(), KError> = self.space.unmap_device_pages(win.va, win.pages);
            let failed: Option<KError> = match r {
                Ok(_) => None,
                Err(e) => Some(e),
            };
            log.push(WindowRevoked { object, va: win.va, reason, failed });
            proof {
                let before = outcomes;
                outcomes = outcomes.push(failed);
                assert(windows@.take(i + 1) =~= windows@.take(i as int).push(win));
                assert(unmaps(windows@.take(i + 1)) =~= unmaps(windows@.take(i as int)).push(
                    SpaceOp::UnmapDevice { va: win.va, pages: win.pages },
                ));
                assert(self@.space.trace() =~= v.space.trace() + unmaps(windows@.take(i + 1)));
                assert(self@.space.unmapped() =~= v.space.unmapped() + outcomes);
                assert(window_records(windows@.take(i + 1), object, reason, outcomes)
                    =~= window_records(windows@.take(i as int), object, reason, before).push(
                    WindowRevoked { object, va: win.va, reason, failed },
                ));
                assert(log@ =~= old(log)@ + window_records(
                    windows@.take(i + 1),
                    object,
                    reason,
                    outcomes,
                ));
                assert(self@ =~= ProcessView { space: self@.space, ..w });
            }
            i += 1;
        }
        assert(windows@.take(i as int) =~= windows@);
        assert(self@.space.unmapped().skip(v.space.unmapped().len() as int) =~= outcomes);
        true
    }

    /// Records that this process mapped memory object `object` at `va`,
    /// spanning `pages`. A full table is [`KError::LimitExceeded`], and the
    /// caller must undo the mapping.
    pub fn record_memory_mapping(&mut self, object: ObjectId, va: u64, pages: u64) -> (r: Result<
        (),
        KError,
    >)
        requires
            old(self).wf(),
            pages * FRAME_SIZE <= u64::MAX,
        ensures
            final(self).wf(),
            ({
                let v = old(self)@;
                let at = slots::first(v.memory_mappings, slots::free::<MemoryMapping>());
                match r {
                    Ok(_) => {
                        &&& at < MAX_MEMORY_MAPPINGS
                        &&& final(self)@ == (ProcessView {
                            memory_mappings: v.memory_mappings.update(
                                at,
                                Some(MemoryMapping { object, va, pages }),
                            ),
                            ..v
                        })
                    },
                    Err(e) => {
                        &&& e == KError::LimitExceeded
                        &&& at == MAX_MEMORY_MAPPINGS
                        &&& final(self)@ == v
                    },
                }
            }),
    {
        match slots::find_free(&self.memory_mappings) {
            None => Err(KError::LimitExceeded),
            Some(slot) => {
                self.memory_mappings[slot] = Some(MemoryMapping { object, va, pages });
                Ok(())
            },
        }
    }

    /// Forgets one recorded mapping without unmapping anything.
    pub fn forget_memory_mapping(&mut self, object: ObjectId, va: u64)
        requires
            old(self).wf(),
        ensures
            final(self).wf(),
            final(self)@ == (ProcessView {
                memory_mappings: without_first(
                    old(self)@.memory_mappings,
                    mapping_at(object, va),
                ),
                ..old(self)@
            }),
    {
        let ghost p = mapping_at(object, va);
        let mut i: usize = 0;
        while i < MAX_MEMORY_MAPPINGS
            invariant
                self.wf(),
                *self == *old(self),
                p == mapping_at(object, va),
                i <= MAX_MEMORY_MAPPINGS,
                forall|j: int| 0 <= j < i ==> !p(#[trigger] self@.memory_mappings[j]),
            decreases MAX_MEMORY_MAPPINGS - i,
        {
            if let Some(m) = self.memory_mappings[i] {
                if m.object == object && m.va == va {
                    proof {
                        slots::lemma_first_is(self@.memory_mappings, p, i as int);
                    }
                    self.memory_mappings[i] = None;
                    return;
                }
            }
            i += 1;
        }
        proof {
            slots::lemma_first_is(self@.memory_mappings, p, i as int);
        }
    }

    /// Revokes this process's mappings of memory object `object`, unless it
    /// still holds a capability naming it. Every mapping is reclaimed, and a
    /// record is kept when its reclaim fails, so the frames stay owned by
    /// exactly one thing. Returns whether the capability departed. Each mapping
    /// is reported in `log`, with what reclaiming it came to.
    pub fn revoke_memory_mappings_unless_held<F: FrameSource>(
        &mut self,
        object: ObjectId,
        reason: WindowRevokeReason,
        alloc: &mut F,
        log: &mut Vec<WindowRevoked>,
    ) -> (departed: bool)
        requires
            old(self).wf(),
            old(alloc).inv(),
        ensures
            final(self).wf(),
            final(alloc).inv(),
            departed == !old(self)@.handles.holds(object),
            charged(
                old(self)@.space.frames(),
                final(self)@.space.frames(),
                *old(alloc),
                *final(alloc),
            ),
            if departed {
                exists|failed: Seq<Option<KError>>|
                    {
                        &&& mappings_revoked(
                            old(self)@,
                            final(self)@,
                            object,
                            none_failed(failed),
                            MAX_MEMORY_MAPPINGS as int,
                        )
                        &&& final(self)@.space.reclaimed() == old(self)@.space.reclaimed()
                            + mapping_outcomes(
                            old(self)@.memory_mappings,
                            object,
                            failed,
                            MAX_MEMORY_MAPPINGS as int,
                        )
                        &&& final(log)@ == old(log)@ + #[trigger] mapping_records(
                            old(self)@.memory_mappings,
                            object,
                            reason,
                            failed,
                            MAX_MEMORY_MAPPINGS as int,
                        )
                    }
            } else {
                &&& final(self)@ == old(self)@
                &&& *final(alloc) == *old(alloc)
                &&& final(log)@ == old(log)@
            },
    {
        proof {
            lemma_charged_nothing(self@.space.frames(), *alloc);
        }
        if self.handles.holds(object) {
            return false;
        }
        let ghost v = self@;
        let ghost mut ok: Seq<bool> = Seq::empty();
        let ghost mut failed: Seq<Option<KError>> = Seq::empty();
        let mut i: usize = 0;
        proof {
            assert(self@.space.reclaimed() =~= v.space.reclaimed() + mapping_outcomes(
                v.memory_mappings,
                object,
                failed,
                0,
            ));
            assert(log@ =~= old(log)@ + mapping_records(
                v.memory_mappings,
                object,
                reason,
                failed,
                0,
            ));
            assert(reclaims(v.memory_mappings, object, ok, 0) =~= Seq::<SpaceOp>::empty());
            assert(v.space.trace() + Seq::<SpaceOp>::empty() =~= v.space.trace());
        }
        while i < MAX_MEMORY_MAPPINGS
            invariant
                self.wf(),
                v.wf(),
                alloc.inv(),
                i <= MAX_MEMORY_MAPPINGS,
                ok.len() == i,
                ok == none_failed(failed),
                failed.len() == i,
                charged(v.space.frames(), self@.space.frames(), *old(alloc), *alloc),
                mappings_revoked(v, self@, object, ok, i as int),
                self@.space.reclaimed() == v.space.reclaimed() + mapping_outcomes(
                    v.memory_mappings,
                    object,
                    failed,
                    i as int,
                ),
                log@ == old(log)@ + mapping_records(
                    v.memory_mappings,
                    object,
                    reason,
                    failed,
                    i as int,
                ),
            decreases MAX_MEMORY_MAPPINGS - i,
        {
            let ghost w = self@;
            let ghost was = ok;
            let ghost had = failed;
            let ghost logged = log@;
            assert(self@.memory_mappings[i as int] == v.memory_mappings[i as int]);
            match self.memory_mappings[i] {
                None => {
                    proof {
                        ok = was.push(false);
                        failed = had.push(Some(KError::BadHandle));
                        lemma_reclaims_step(v.memory_mappings, object, was, false, i as int);
                        assert(mappings_revoked(v, self@, object, ok, i + 1));
                    }
                },
                Some(m) => {
                    if m.object == object {
                        let ghost seen = *alloc;
                        let outcome = self.space.reclaim_range(m.va, m.pages * FRAME_SIZE, alloc);
                        proof {
                            lemma_charged(
                                v.space.frames(),
                                w.space.frames(),
                                self.space.frames(),
                                *old(alloc),
                                seen,
                                *alloc,
                            );
                        }
                        if outcome.is_ok() {
                            self.memory_mappings[i] = None;
                        }
                        let error: Option<KError> = match outcome {
                            Ok(_) => None,
                            Err(e) => Some(e),
                        };
                        log.push(WindowRevoked { object, va: m.va, reason, failed: error });
                        proof {
                            ok = was.push(outcome is Ok);
                            failed = had.push(error);
                            lemma_reclaims_step(
                                v.memory_mappings,
                                object,
                                was,
                                outcome is Ok,
                                i as int,
                            );
                            assert(self@.space.trace() =~= v.space.trace() + reclaims(
                                v.memory_mappings,
                                object,
                                ok,
                                i + 1,
                            ));
                            assert(self@ =~= ProcessView {
                                space: self@.space,
                                memory_mappings: self@.memory_mappings,
                                ..v
                            });
                            assert(mappings_revoked(v, self@, object, ok, i + 1));
                        }
                    } else {
                        proof {
                            ok = was.push(false);
                            failed = had.push(Some(KError::BadHandle));
                            lemma_reclaims_step(v.memory_mappings, object, was, false, i as int);
                            assert(mappings_revoked(v, self@, object, ok, i + 1));
                        }
                    }
                },
            }
            proof {
                assert(ok =~= none_failed(failed));
                lemma_mapping_records_step(
                    v.memory_mappings,
                    object,
                    reason,
                    had,
                    failed.last(),
                    i as int,
                );
                assert(failed =~= had.push(failed.last()));
                assert(self@.space.reclaimed() =~= v.space.reclaimed() + mapping_outcomes(
                    v.memory_mappings,
                    object,
                    failed,
                    i + 1,
                ));
                assert(log@ =~= old(log)@ + mapping_records(
                    v.memory_mappings,
                    object,
                    reason,
                    failed,
                    i + 1,
                ));
            }
            i += 1;
        }
        true
    }

    /// Every memory object this process has mapped, in `out`; returns how many.
    pub fn mapped_memory_objects(&self, out: &mut [ObjectId]) -> (n: usize)
        requires
            self.wf(),
        ensures
            crate::memory::filled(
                old(out)@,
                final(out)@,
                n as int,
                mapped(self@.memory_mappings),
            ),
    {
        let mut objects: Vec<ObjectId> = Vec::new();
        let mut i: usize = 0;
        let ghost m = self@.memory_mappings;
        assert(mapped(m.take(0)) =~= Seq::<ObjectId>::empty());
        while i < MAX_MEMORY_MAPPINGS
            invariant
                self.wf(),
                m == self@.memory_mappings,
                i <= MAX_MEMORY_MAPPINGS,
                objects@ == mapped(m.take(i as int)),
            decreases MAX_MEMORY_MAPPINGS - i,
        {
            proof {
                assert(m.take(i + 1).drop_last() =~= m.take(i as int));
                assert(m.take(i + 1).last() == m[i as int]);
            }
            if let Some(mapping) = self.memory_mappings[i] {
                if !crate::handle::contains_id(&objects, mapping.object) {
                    objects.push(mapping.object);
                }
            }
            i += 1;
        }
        assert(m.take(i as int) =~= m);
        let ghost list = objects@;
        let mut n: usize = 0;
        assert(out@ =~= list.take(0) + old(out)@.skip(0));
        while n < objects.len() && n < out.len()
            invariant
                list == objects@,
                n <= list.len(),
                n <= old(out)@.len(),
                out@ == list.take(n as int) + old(out)@.skip(n as int),
            decreases list.len() - n,
        {
            out[n] = objects[n];
            n += 1;
            assert(out@ =~= list.take(n as int) + old(out)@.skip(n as int));
        }
        n
    }

    /// Memory mappings currently recorded.
    pub fn memory_mapping_count(&self) -> (n: usize)
        ensures
            n == slots::count(self@.memory_mappings, slots::used::<MemoryMapping>()),
    {
        slots::count_used(&self.memory_mappings)
    }

    /// Windows currently recorded.
    pub fn device_window_count(&self) -> (n: usize)
        ensures
            n == slots::count(self@.device_windows, slots::used::<DeviceWindow>()),
    {
        slots::count_used(&self.device_windows)
    }

    pub fn id(&self) -> (r: ObjectId)
        ensures
            r == self@.id,
    {
        self.id
    }

    /// The job this process belongs to, if placed in one.
    pub fn job(&self) -> (r: Option<ObjectId>)
        ensures
            r == self@.job,
    {
        self.job
    }

    /// Records the owning job.
    pub fn set_job(&mut self, job: ObjectId)
        ensures
            final(self)@ == (ProcessView { job: Some(job), ..old(self)@ }),
    {
        self.job = Some(job);
    }

    pub fn space(&self) -> (s: &S)
        ensures
            *s == self@.space,
    {
        &self.space
    }

    pub fn space_mut(&mut self) -> (s: &mut S)
        ensures
            *s == old(self)@.space,
            final(self)@ == (ProcessView { space: *final(s), ..old(self)@ }),
    {
        &mut self.space
    }

    pub fn handles(&self) -> (h: &HandleTable)
        ensures
            h@ == self@.handles,
    {
        &self.handles
    }

    pub fn handles_mut(&mut self) -> (h: &mut HandleTable)
        ensures
            (*h)@ == old(self)@.handles,
            final(self)@ == (ProcessView { handles: (*final(h))@, ..old(self)@ }),
    {
        &mut self.handles
    }

    /// Records a thread as belonging to this process. `OutOfMemory` if the
    /// per-process thread set is full.
    pub fn add_thread(&mut self, thread: ThreadId) -> (r: Result<(), KError>)
        requires
            old(self).wf(),
        ensures
            final(self).wf(),
            ({
                let v = old(self)@;
                let at = slots::first(v.threads, slots::free::<ThreadId>());
                match r {
                    Ok(_) => {
                        &&& at < MAX_THREADS_PER_PROCESS
                        &&& final(self)@ == (ProcessView {
                            threads: v.threads.update(at, Some(thread)),
                            ..v
                        })
                    },
                    Err(e) => {
                        &&& e == KError::OutOfMemory
                        &&& at == MAX_THREADS_PER_PROCESS
                        &&& final(self)@ == v
                    },
                }
            }),
    {
        match slots::find_free(&self.threads) {
            None => Err(KError::OutOfMemory),
            Some(slot) => {
                self.threads[slot] = Some(thread);
                Ok(())
            },
        }
    }

    /// Drops `thread` from this process's thread list: the other half of
    /// reaping it.
    pub fn forget_thread(&mut self, thread: ThreadId)
        requires
            old(self).wf(),
        ensures
            final(self).wf(),
            final(self)@ == (ProcessView {
                threads: swept(old(self)@.threads, is_thread(thread)),
                ..old(self)@
            }),
    {
        let ghost before = self@.threads;
        let ghost p = is_thread(thread);
        let mut i: usize = 0;
        while i < MAX_THREADS_PER_PROCESS
            invariant
                self.wf(),
                p == is_thread(thread),
                before == old(self)@.threads,
                before.len() == MAX_THREADS_PER_PROCESS,
                i <= MAX_THREADS_PER_PROCESS,
                self@ == (ProcessView { threads: self@.threads, ..old(self)@ }),
                forall|j: int|
                    0 <= j < MAX_THREADS_PER_PROCESS ==> #[trigger] self@.threads[j] == (if j < i
                        && p(before[j]) {
                        None
                    } else {
                        before[j]
                    }),
            decreases MAX_THREADS_PER_PROCESS - i,
        {
            assert(self@.threads[i as int] == before[i as int]);
            if let Some(t) = self.threads[i] {
                if t == thread {
                    self.threads[i] = None;
                    assert(self@ =~= ProcessView { threads: self@.threads, ..old(self)@ });
                }
            }
            i += 1;
        }
        assert(self@.threads =~= swept(before, p));
    }

    /// Whether `thread` is one of this process's threads.
    pub fn owns_thread(&self, thread: ThreadId) -> (b: bool)
        requires
            self.wf(),
        ensures
            b == self@.owns(thread),
    {
        let mut i: usize = 0;
        while i < MAX_THREADS_PER_PROCESS
            invariant
                self.wf(),
                i <= MAX_THREADS_PER_PROCESS,
                forall|j: int| 0 <= j < i ==> self@.threads[j] != Some(thread),
            decreases MAX_THREADS_PER_PROCESS - i,
        {
            if let Some(t) = self.threads[i] {
                if t == thread {
                    assert(self@.threads[i as int] == Some(thread));
                    return true;
                }
            }
            i += 1;
        }
        false
    }

    /// The identities of this process's threads.
    pub fn thread_ids(&self) -> (t: &[Option<ThreadId>])
        ensures
            t@ == self@.threads,
    {
        self.threads.as_slice()
    }

    /// Enrolls `thread` to be woken when this process exits. `OutOfMemory` if
    /// too many wait already.
    pub fn add_waiter(&mut self, thread: ThreadId) -> (r: Result<(), KError>)
        requires
            old(self).wf(),
        ensures
            final(self).wf(),
            match r {
                Ok(_) => {
                    &&& old(self)@.waiters.len() < MAX_PROCESS_WAITERS
                    &&& final(self)@ == (ProcessView {
                        waiters: old(self)@.waiters.push(thread),
                        ..old(self)@
                    })
                },
                Err(e) => {
                    &&& e == KError::OutOfMemory
                    &&& old(self)@.waiters.len() == MAX_PROCESS_WAITERS
                    &&& final(self)@ == old(self)@
                },
            },
    {
        if self.waiters.len() >= MAX_PROCESS_WAITERS {
            return Err(KError::OutOfMemory);
        }
        self.waiters.push(thread);
        Ok(())
    }

    /// Removes and returns the threads waiting for this process to exit.
    pub fn take_waiters(&mut self) -> (w: Vec<ThreadId>)
        ensures
            w@ == old(self)@.waiters,
            final(self)@ == (ProcessView { waiters: Seq::empty(), ..old(self)@ }),
    {
        let mut taken: Vec<ThreadId> = Vec::new();
        taken.append(&mut self.waiters);
        assert(taken@ =~= old(self)@.waiters);
        assert(self@ =~= ProcessView { waiters: Seq::empty(), ..old(self)@ });
        taken
    }

    pub fn state(&self) -> (s: ProcessState)
        ensures
            s == self@.state,
    {
        self.state
    }

    /// Marks the process started.
    pub fn set_running(&mut self)
        ensures
            final(self)@ == (ProcessView { state: ProcessState::Running, ..old(self)@ }),
    {
        self.state = ProcessState::Running;
    }

    /// Terminates the process with `code`.
    pub fn exit(&mut self, code: i32)
        ensures
            final(self)@ == (ProcessView { state: ProcessState::Exited(code), ..old(self)@ }),
    {
        self.state = ProcessState::Exited(code);
    }

    /// Whether the process has terminated.
    pub fn is_exited(&self) -> (b: bool)
        ensures
            b == (self@.state is Exited),
    {
        matches!(self.state, ProcessState::Exited(_))
    }
}

/// The predicate of a slot that names `thread`.
pub open spec fn is_thread(thread: ThreadId) -> spec_fn(Option<ThreadId>) -> bool {
    |o: Option<ThreadId>| o == Some(thread)
}

/// The reclaims asked for the first `n` mappings, where `ok` says which
/// succeeded.
pub open spec fn reclaims(
    mappings: Seq<Option<MemoryMapping>>,
    object: ObjectId,
    ok: Seq<bool>,
    n: int,
) -> Seq<SpaceOp>
    decreases n,
{
    if n <= 0 {
        Seq::empty()
    } else {
        let before = reclaims(mappings, object, ok, n - 1);
        if mapping_of(object)(mappings[n - 1]) {
            let m = mappings[n - 1]->0;
            before.push(
                SpaceOp::Reclaim { va: m.va, len: (m.pages * FRAME_SIZE) as u64, ok: ok[n - 1] },
            )
        } else {
            before
        }
    }
}

proof fn lemma_reclaims_step(
    mappings: Seq<Option<MemoryMapping>>,
    object: ObjectId,
    ok: Seq<bool>,
    last: bool,
    n: int,
)
    requires
        0 <= n,
        ok.len() == n,
    ensures
        reclaims(mappings, object, ok.push(last), n) == reclaims(mappings, object, ok, n),
{
    lemma_reclaims_prefix(mappings, object, ok, ok.push(last), n);
}

proof fn lemma_reclaims_prefix(
    mappings: Seq<Option<MemoryMapping>>,
    object: ObjectId,
    a: Seq<bool>,
    b: Seq<bool>,
    n: int,
)
    requires
        0 <= n <= a.len(),
        n <= b.len(),
        forall|i: int| 0 <= i < n ==> a[i] == b[i],
    ensures
        reclaims(mappings, object, a, n) == reclaims(mappings, object, b, n),
    decreases n,
{
    if n > 0 {
        lemma_reclaims_prefix(mappings, object, a, b, n - 1);
    }
}

/// What succeeded, given what failed.
pub open spec fn none_failed(failed: Seq<Option<KError>>) -> Seq<bool> {
    failed.map_values(|f: Option<KError>| f is None)
}

/// What is reported of the first `n` mappings as far as they are of `object`:
/// taken down for `reason`, each with its outcome.
pub open spec fn mapping_records(
    mappings: Seq<Option<MemoryMapping>>,
    object: ObjectId,
    reason: WindowRevokeReason,
    failed: Seq<Option<KError>>,
    n: int,
) -> Seq<WindowRevoked>
    decreases n,
{
    if n <= 0 {
        Seq::empty()
    } else {
        let before = mapping_records(mappings, object, reason, failed, n - 1);
        if mapping_of(object)(mappings[n - 1]) {
            before.push(
                WindowRevoked {
                    object,
                    va: mappings[n - 1]->0.va,
                    reason,
                    failed: failed[n - 1],
                },
            )
        } else {
            before
        }
    }
}

/// The outcomes of the first `n` mappings as far as they are of `object`.
pub open spec fn mapping_outcomes(
    mappings: Seq<Option<MemoryMapping>>,
    object: ObjectId,
    failed: Seq<Option<KError>>,
    n: int,
) -> Seq<Option<KError>>
    decreases n,
{
    if n <= 0 {
        Seq::empty()
    } else {
        let before = mapping_outcomes(mappings, object, failed, n - 1);
        if mapping_of(object)(mappings[n - 1]) {
            before.push(failed[n - 1])
        } else {
            before
        }
    }
}

/// The outcome of a later mapping changes nothing that came before it.
proof fn lemma_mapping_records_step(
    mappings: Seq<Option<MemoryMapping>>,
    object: ObjectId,
    reason: WindowRevokeReason,
    failed: Seq<Option<KError>>,
    last: Option<KError>,
    n: int,
)
    requires
        0 <= n <= failed.len(),
    ensures
        mapping_records(mappings, object, reason, failed.push(last), n) == mapping_records(
            mappings,
            object,
            reason,
            failed,
            n,
        ),
        mapping_outcomes(mappings, object, failed.push(last), n) == mapping_outcomes(
            mappings,
            object,
            failed,
            n,
        ),
    decreases n,
{
    if n > 0 {
        lemma_mapping_records_step(mappings, object, reason, failed, last, n - 1);
    }
}

/// `after` is `before` with the first `n` mappings of `object` reclaimed, the
/// record of each dropped exactly when its reclaim succeeded.
pub open spec fn mappings_revoked<S: Space>(
    before: ProcessView<S>,
    after: ProcessView<S>,
    object: ObjectId,
    ok: Seq<bool>,
    n: int,
) -> bool {
    &&& ok.len() == n
    &&& after == (ProcessView {
        space: after.space,
        memory_mappings: after.memory_mappings,
        ..before
    })
    &&& after.space.trace() == before.space.trace() + reclaims(
        before.memory_mappings,
        object,
        ok,
        n,
    )
    &&& after.memory_mappings.len() == before.memory_mappings.len()
    &&& forall|i: int|
        0 <= i < before.memory_mappings.len() ==> #[trigger] after.memory_mappings[i] == (if i < n
            && mapping_of(object)(before.memory_mappings[i]) && ok[i] {
            None
        } else {
            before.memory_mappings[i]
        })
}

/// A fixed pool of processes. Dense indices, no generations: a process index is
/// kernel-internal.
pub struct ProcessTable<S: Space> {
    slots: Vec<Option<Process<S>>>,
}

/// The view of an optional process.
pub open spec fn process_view<S: Space>(p: Option<Process<S>>) -> Option<ProcessView<S>> {
    match p {
        Some(p) => Some(p@),
        None => None,
    }
}

/// The table has its capacity and every process in it is sound.
pub open spec fn processes_wf<S>(t: Seq<Option<ProcessView<S>>>) -> bool {
    &&& t.len() == MAX_PROCESSES
    &&& forall|i: int| 0 <= i < MAX_PROCESSES ==> ((#[trigger] t[i]) matches Some(p) ==> p.wf())
}

/// The predicate of the process called `id`.
pub open spec fn called<S>(id: ObjectId) -> spec_fn(Option<ProcessView<S>>) -> bool {
    |o: Option<ProcessView<S>>| o matches Some(p) && p.id == id
}

/// The predicate of a process that owns `thread`.
pub open spec fn owning<S>(thread: ThreadId) -> spec_fn(Option<ProcessView<S>>) -> bool {
    |o: Option<ProcessView<S>>| o matches Some(p) && p.owns(thread)
}

/// Where the process called `id` is, or the capacity.
pub open spec fn process_slot<S>(t: Seq<Option<ProcessView<S>>>, id: ObjectId) -> int {
    slots::first(t, called(id))
}

/// Where the first process that owns `thread` is, or the capacity.
pub open spec fn owner_slot<S>(t: Seq<Option<ProcessView<S>>>, thread: ThreadId) -> int {
    slots::first(t, owning(thread))
}

/// The process called `id`, if live.
pub open spec fn process_called<S>(t: Seq<Option<ProcessView<S>>>, id: ObjectId) -> Option<
    ProcessView<S>,
> {
    if process_slot(t, id) < t.len() {
        t[process_slot(t, id)]
    } else {
        None
    }
}

/// The first process that owns `thread`, if any.
pub open spec fn process_owning<S>(t: Seq<Option<ProcessView<S>>>, thread: ThreadId) -> Option<
    ProcessView<S>,
> {
    if owner_slot(t, thread) < t.len() {
        t[owner_slot(t, thread)]
    } else {
        None
    }
}

/// The first free slot, or the capacity.
pub open spec fn process_vacancy<S>(t: Seq<Option<ProcessView<S>>>) -> int {
    slots::first(t, slots::free::<ProcessView<S>>())
}

/// Every process with `thread` dropped from its list.
pub open spec fn thread_forgotten<S>(t: Seq<Option<ProcessView<S>>>, thread: ThreadId) -> Seq<
    Option<ProcessView<S>>,
> {
    Seq::new(
        t.len(),
        |i: int|
            match t[i] {
                Some(p) => Some(
                    ProcessView { threads: swept(p.threads, is_thread(thread)), ..p },
                ),
                None => None,
            },
    )
}

impl<S: Space> View for ProcessTable<S> {
    type V = Seq<Option<ProcessView<S>>>;

    closed spec fn view(&self) -> Seq<Option<ProcessView<S>>> {
        Seq::new(self.slots@.len(), |i: int| process_view(self.slots@[i]))
    }
}

impl<S: Space> ProcessTable<S> {
    /// The table's invariant.
    pub open spec fn wf(&self) -> bool {
        processes_wf(self@)
    }

    pub fn new() -> (t: ProcessTable<S>)
        ensures
            t.wf(),
            t@ == slots::empty::<ProcessView<S>>(MAX_PROCESSES as nat),
    {
        let t = ProcessTable { slots: slots::empty_slots(MAX_PROCESSES) };
        assert(t@ =~= slots::empty::<ProcessView<S>>(MAX_PROCESSES as nat));
        t
    }

    /// Inserts `process`, returning its dense table index, or `OutOfMemory`.
    pub fn insert(&mut self, process: Process<S>) -> (r: Result<usize, KError>)
        requires
            old(self).wf(),
            process.wf(),
        ensures
            final(self).wf(),
            match r {
                Ok(i) => {
                    &&& i == process_vacancy(old(self)@)
                    &&& i < MAX_PROCESSES
                    &&& final(self)@ == old(self)@.update(i as int, Some(process@))
                },
                Err(e) => {
                    &&& e == KError::OutOfMemory
                    &&& process_vacancy(old(self)@) == MAX_PROCESSES
                    &&& final(self)@ == old(self)@
                },
            },
    {
        let ghost p = slots::free::<ProcessView<S>>();
        let mut i: usize = 0;
        while i < MAX_PROCESSES
            invariant
                self.wf(),
                process.wf(),
                *self == *old(self),
                p == slots::free::<ProcessView<S>>(),
                i <= MAX_PROCESSES,
                forall|j: int| 0 <= j < i ==> !p(#[trigger] self@[j]),
            decreases MAX_PROCESSES - i,
        {
            assert(self@[i as int] == process_view(self.slots@[i as int]));
            if self.slots[i].is_none() {
                proof {
                    slots::lemma_first_is(self@, p, i as int);
                }
                self.slots[i] = Some(process);
                assert(self@ =~= old(self)@.update(i as int, Some(process@)));
                return Ok(i);
            }
            i += 1;
        }
        proof {
            slots::lemma_first_is(self@, p, i as int);
        }
        Err(KError::OutOfMemory)
    }

    /// Removes and returns the process at dense `index`, freeing the slot;
    /// `None` if the slot is empty. The caller tears its address space down.
    pub fn remove(&mut self, index: usize) -> (r: Option<Process<S>>)
        requires
            old(self).wf(),
        ensures
            final(self).wf(),
            if index < MAX_PROCESSES {
                &&& process_view(r) == old(self)@[index as int]
                &&& final(self)@ == old(self)@.update(index as int, None)
                &&& r matches Some(p) ==> p.wf()
            } else {
                r is None && final(self)@ == old(self)@
            },
    {
        if index >= self.slots.len() {
            return None;
        }
        assert(self@[index as int] == process_view(self.slots@[index as int]));
        let taken = self.slots[index].take();
        assert(self@ =~= old(self)@.update(index as int, None));
        taken
    }

    /// Dense index of the live process whose object id is `id`.
    pub fn index_of_id(&self, id: ObjectId) -> (r: Option<usize>)
        requires
            self.wf(),
        ensures
            match r {
                Some(i) => {
                    &&& i == process_slot(self@, id)
                    &&& i < MAX_PROCESSES
                    &&& self@[i as int] is Some
                    &&& self@[i as int]->0.id == id
                },
                None => process_slot(self@, id) == MAX_PROCESSES,
            },
    {
        let ghost p = called::<S>(id);
        let mut i: usize = 0;
        while i < MAX_PROCESSES
            invariant
                self.wf(),
                p == called::<S>(id),
                i <= MAX_PROCESSES,
                forall|j: int| 0 <= j < i ==> !p(#[trigger] self@[j]),
            decreases MAX_PROCESSES - i,
        {
            assert(self@[i as int] == process_view(self.slots@[i as int]));
            if let Some(process) = &self.slots[i] {
                if process.id() == id {
                    proof {
                        slots::lemma_first_is(self@, p, i as int);
                    }
                    return Some(i);
                }
            }
            i += 1;
        }
        proof {
            slots::lemma_first_is(self@, p, i as int);
        }
        None
    }

    fn index_of_thread(&self, thread: ThreadId) -> (r: Option<usize>)
        requires
            self.wf(),
        ensures
            match r {
                Some(i) => {
                    &&& i == owner_slot(self@, thread)
                    &&& i < MAX_PROCESSES
                    &&& self@[i as int] is Some
                    &&& self@[i as int]->0.owns(thread)
                },
                None => owner_slot(self@, thread) == MAX_PROCESSES,
            },
    {
        let ghost p = owning::<S>(thread);
        let mut i: usize = 0;
        while i < MAX_PROCESSES
            invariant
                self.wf(),
                p == owning::<S>(thread),
                i <= MAX_PROCESSES,
                forall|j: int| 0 <= j < i ==> !p(#[trigger] self@[j]),
            decreases MAX_PROCESSES - i,
        {
            assert(self@[i as int] == process_view(self.slots@[i as int]));
            if let Some(process) = &self.slots[i] {
                if process.owns_thread(thread) {
                    proof {
                        slots::lemma_first_is(self@, p, i as int);
                    }
                    return Some(i);
                }
            }
            i += 1;
        }
        proof {
            slots::lemma_first_is(self@, p, i as int);
        }
        None
    }

    pub fn get(&self, index: usize) -> (r: Option<&Process<S>>)
        requires
            self.wf(),
        ensures
            match r {
                Some(p) => index < MAX_PROCESSES && p.wf() && self@[index as int] == Some(p@),
                None => index >= MAX_PROCESSES || self@[index as int] is None,
            },
    {
        if index >= self.slots.len() {
            return None;
        }
        assert(self@[index as int] == process_view(self.slots@[index as int]));
        self.slots[index].as_ref()
    }

    pub fn get_mut(&mut self, index: usize) -> (r: Option<&mut Process<S>>)
        requires
            old(self).wf(),
        ensures
            match r {
                Some(p) => {
                    &&& index < MAX_PROCESSES
                    &&& (*p).wf()
                    &&& old(self)@[index as int] == Some((*p)@)
                    &&& final(self)@ == old(self)@.update(index as int, Some((*final(p))@))
                    &&& (*final(p)).wf() ==> final(self).wf()
                },
                None => {
                    &&& index >= MAX_PROCESSES || old(self)@[index as int] is None
                    &&& final(self).wf()
                    &&& final(self)@ == old(self)@
                },
            },
    {
        if index >= self.slots.len() {
            return None;
        }
        assert(self@[index as int] == process_view(self.slots@[index as int]));
        if self.slots[index].is_none() {
            return None;
        }
        match &mut self.slots[index] {
            Some(p) => {
                assert(after_borrow(self)@ =~= old(self)@.update(
                    index as int,
                    Some((*final(p))@),
                ));
                Some(p)
            },
            None => None,
        }
    }

    /// The process that owns `thread`, if any: how a syscall resolves the
    /// caller's process from the running thread.
    pub fn process_of_thread(&mut self, thread: ThreadId) -> (r: Option<&mut Process<S>>)
        requires
            old(self).wf(),
        ensures
            match r {
                Some(p) => {
                    &&& process_owning(old(self)@, thread) == Some((*p)@)
                    &&& (*p).wf()
                    &&& owner_slot(old(self)@, thread) < MAX_PROCESSES
                    &&& final(self)@ == old(self)@.update(
                        owner_slot(old(self)@, thread),
                        Some((*final(p))@),
                    )
                    &&& (*final(p)).wf() ==> final(self).wf()
                },
                None => {
                    &&& process_owning(old(self)@, thread) is None
                    &&& final(self).wf()
                    &&& final(self)@ == old(self)@
                },
            },
    {
        match self.index_of_thread(thread) {
            None => None,
            Some(i) => self.get_mut(i),
        }
    }

    /// The process that owns `thread`, to read.
    pub fn owner_of_thread(&self, thread: ThreadId) -> (r: Option<&Process<S>>)
        requires
            self.wf(),
        ensures
            match r {
                Some(p) => p.wf() && process_owning(self@, thread) == Some(p@),
                None => process_owning(self@, thread) is None,
            },
    {
        match self.index_of_thread(thread) {
            None => None,
            Some(i) => self.get(i),
        }
    }

    /// Drops `thread` from whichever process claims it, so a freed scheduler
    /// slot cannot be recycled into a live thread that a dead process still
    /// claims.
    pub fn forget_thread(&mut self, thread: ThreadId)
        requires
            old(self).wf(),
        ensures
            final(self).wf(),
            final(self)@ == thread_forgotten(old(self)@, thread),
    {
        let ghost before = self@;
        let mut i: usize = 0;
        while i < MAX_PROCESSES
            invariant
                self.wf(),
                before.len() == MAX_PROCESSES,
                i <= MAX_PROCESSES,
                forall|j: int|
                    0 <= j < MAX_PROCESSES ==> #[trigger] self@[j] == (if j < i {
                        thread_forgotten(before, thread)[j]
                    } else {
                        before[j]
                    }),
            decreases MAX_PROCESSES - i,
        {
            assert(self@[i as int] == before[i as int]);
            if let Some(p) = self.get_mut(i) {
                p.forget_thread(thread);
            }
            i += 1;
        }
        assert(self@ =~= thread_forgotten(before, thread));
    }

    /// The process whose object id is `id`, if live: how a syscall resolves a
    /// process handle to its target.
    pub fn process_of_id(&mut self, id: ObjectId) -> (r: Option<&mut Process<S>>)
        requires
            old(self).wf(),
        ensures
            match r {
                Some(p) => {
                    &&& process_called(old(self)@, id) == Some((*p)@)
                    &&& (*p)@.id == id
                    &&& (*p).wf()
                    &&& process_slot(old(self)@, id) < MAX_PROCESSES
                    &&& final(self)@ == old(self)@.update(
                        process_slot(old(self)@, id),
                        Some((*final(p))@),
                    )
                    &&& (*final(p)).wf() ==> final(self).wf()
                },
                None => {
                    &&& process_called(old(self)@, id) is None
                    &&& final(self).wf()
                    &&& final(self)@ == old(self)@
                },
            },
    {
        match self.index_of_id(id) {
            None => None,
            Some(i) => self.get_mut(i),
        }
    }
}

impl<S: Space> Default for ProcessTable<S> {
    fn default() -> (t: ProcessTable<S>)
        ensures
            t.wf(),
            t@ == slots::empty::<ProcessView<S>>(MAX_PROCESSES as nat),
    {
        ProcessTable::new()
    }
}

/// After a revocation nothing of the object is left: no window on it is
/// recorded, and every other window is untouched.
pub proof fn law_revocation_is_complete(
    windows: Seq<Option<DeviceWindow>>,
    object: ObjectId,
    other: ObjectId,
)
    requires
        other != object,
    ensures
        !slots::any(swept(windows, window_on(object)), window_on(object)),
        chosen(swept(windows, window_on(object)), window_on(other)) == chosen(
            windows,
            window_on(other),
        ),
    decreases windows.len(),
{
    if windows.len() > 0 {
        let rest = windows.drop_last();
        law_revocation_is_complete(rest, object, other);
        assert(swept(windows, window_on(object)).drop_last() =~= swept(rest, window_on(object)));
    }
    let s = swept(windows, window_on(object));
    assert forall|i: int| 0 <= i < s.len() implies !window_on(object)(#[trigger] s[i]) by {}
}

/// A forgotten thread is claimed by no process.
pub proof fn law_forgotten_thread_has_no_owner<S>(
    t: Seq<Option<ProcessView<S>>>,
    thread: ThreadId,
)
    ensures
        process_owning(thread_forgotten(t, thread), thread) is None,
{
    let u = thread_forgotten(t, thread);
    let p = owning::<S>(thread);
    assert forall|i: int| 0 <= i < u.len() implies !p(#[trigger] u[i]) by {
        if let Some(q) = u[i] {
            if q.owns(thread) {
                let k = choose|k: int| 0 <= k < q.threads.len() && q.threads[k] == Some(thread);
                assert(t[i]->0.threads[k] == Some(thread) ==> q.threads[k] is None);
            }
        }
    }
    slots::lemma_first_is(u, p, u.len() as int);
}

/// A process is found by its id or by one of its threads: what is found has it,
/// and nothing is found only when no process does.
pub proof fn law_a_process_is_found_by_what_it_has<S>(
    t: Seq<Option<ProcessView<S>>>,
    id: ObjectId,
    thread: ThreadId,
)
    requires
        processes_wf(t),
    ensures
        match process_called(t, id) {
            Some(p) => p.id == id && 0 <= process_slot(t, id) < t.len() && t[process_slot(t, id)]
                == Some(p),
            None => forall|k: int|
                0 <= k < t.len() ==> (#[trigger] t[k] matches Some(p) ==> p.id != id),
        },
        match process_owning(t, thread) {
            Some(p) => 0 <= owner_slot(t, thread) < t.len() && t[owner_slot(t, thread)] == Some(p)
                && exists|j: int|
                0 <= j < p.threads.len() && #[trigger] p.threads[j] == Some(thread),
            None => forall|k: int, j: int|
                0 <= k < t.len() && (t[k] matches Some(p) && 0 <= j < p.threads.len())
                    ==> #[trigger] t[k]->0.threads[j] != Some(thread),
        },
        0 <= process_vacancy(t) <= t.len(),
        process_vacancy(t) < t.len() ==> t[process_vacancy(t)] is None,
        process_vacancy(t) == t.len() ==> forall|k: int|
            0 <= k < t.len() ==> #[trigger] t[k] is Some,
{
    slots::lemma_first(t, called::<S>(id));
    slots::lemma_first(t, owning::<S>(thread));
    slots::lemma_first(t, slots::free::<ProcessView<S>>());
    if process_called(t, id) is None {
        assert forall|k: int| 0 <= k < t.len() implies (#[trigger] t[k] matches Some(p) ==> p.id
            != id) by {
            assert(!called::<S>(id)(t[k]));
        }
    }
    if process_owning(t, thread) is None {
        assert forall|k: int, j: int|
            0 <= k < t.len() && (t[k] matches Some(p) && 0 <= j
                < p.threads.len()) implies #[trigger] t[k]->0.threads[j] != Some(thread) by {
            assert(!owning::<S>(thread)(t[k]));
        }
    } else {
        assert(owning::<S>(thread)(t[owner_slot(t, thread)]));
    }
    if process_vacancy(t) == t.len() {
        assert forall|k: int| 0 <= k < t.len() implies #[trigger] t[k] is Some by {
            assert(!slots::free::<ProcessView<S>>()(t[k]));
        }
    }
}

/// A new process has its id and its space and nothing else, and has not started.
pub proof fn law_a_new_process_has_nothing<S>(id: ObjectId, space: S, k: int)
    ensures
        ({
            let p = ProcessView::fresh(id, space);
            &&& p.id == id && p.space == space
            &&& p.state == ProcessState::Created
            &&& p.waiters.len() == 0 && p.job is None
            &&& 0 <= k < p.threads.len() ==> p.threads[k] is None
            &&& 0 <= k < p.handles.slots.len() ==> p.handles.slots[k] is None
            &&& 0 <= k < p.device_windows.len() ==> p.device_windows[k] is None
            &&& 0 <= k < p.memory_mappings.len() ==> p.memory_mappings[k] is None
            &&& p.threads.len() == MAX_THREADS_PER_PROCESS
            &&& p.device_windows.len() == MAX_DEVICE_WINDOWS
            &&& p.memory_mappings.len() == MAX_MEMORY_MAPPINGS
        }),
{
}

/// Taking an object's windows takes each of them, in order, and no other: a
/// window is among those taken exactly when it was on the object, and what is
/// left has none of them.
pub proof fn law_an_objects_windows_are_taken(
    windows: Seq<Option<DeviceWindow>>,
    object: ObjectId,
    i: int,
)
    requires
        0 <= i < windows.len(),
    ensures
        ({
            let left = swept(windows, window_on(object));
            let taken = chosen(windows, window_on(object));
            match windows[i] {
                Some(w) => if w.object == object {
                    left[i] is None && taken.contains(w)
                } else {
                    left[i] == windows[i]
                },
                None => left[i] is None,
            }
        }),
        forall|k: int|
            0 <= k < chosen(windows, window_on(object)).len() ==> (#[trigger] chosen(
                windows,
                window_on(object),
            )[k]).object == object,
{
    lemma_chosen(windows, window_on(object), i);
    assert forall|k: int| 0 <= k < chosen(windows, window_on(object)).len() implies (
    #[trigger] chosen(windows, window_on(object))[k]).object == object by {
        lemma_chosen_from(windows, window_on(object), k);
    }
}

/// What is chosen from a list holds every element that satisfies.
proof fn lemma_chosen<T>(s: Seq<Option<T>>, p: spec_fn(Option<T>) -> bool, i: int)
    requires
        0 <= i < s.len(),
    ensures
        p(s[i]) ==> chosen(s, p).contains(s[i]->0),
    decreases s.len(),
{
    let rest = s.drop_last();
    let c = chosen(s, p);
    let d = chosen(rest, p);
    if p(s[i]) {
        if i < rest.len() {
            lemma_chosen(rest, p, i);
            let k = choose|k: int| 0 <= k < d.len() && d[k] == rest[i]->0;
            assert(c[k] == s[i]->0);
        } else {
            assert(c.last() == s[i]->0);
        }
    }
}

/// What is chosen from a list is an element of it that satisfies.
proof fn lemma_chosen_from<T>(s: Seq<Option<T>>, p: spec_fn(Option<T>) -> bool, k: int)
    requires
        0 <= k < chosen(s, p).len(),
    ensures
        exists|i: int| 0 <= i < s.len() && p(#[trigger] s[i]) && s[i]->0 == chosen(s, p)[k],
    decreases s.len(),
{
    if s.len() > 0 {
        let rest = s.drop_last();
        let d = chosen(rest, p);
        if k < d.len() {
            lemma_chosen_from(rest, p, k);
            let i = choose|i: int| 0 <= i < rest.len() && p(#[trigger] rest[i]) && rest[i]->0 == d[k];
            assert(p(s[i]) && s[i]->0 == chosen(s, p)[k]);
        } else {
            assert(p(s[s.len() - 1]));
        }
    }
}

/// A thread that is forgotten leaves every process it is in, and takes nobody
/// with it.
pub proof fn law_only_the_forgotten_thread_goes<S>(
    t: Seq<Option<ProcessView<S>>>,
    thread: ThreadId,
    k: int,
    j: int,
)
    requires
        0 <= k < t.len(),
        t[k] is Some,
        0 <= j < t[k]->0.threads.len(),
    ensures
        ({
            let u = thread_forgotten(t, thread);
            let p = t[k]->0;
            &&& u.len() == t.len()
            &&& u[k] matches Some(q)
            &&& q.threads.len() == p.threads.len()
            &&& q.threads[j] == (if p.threads[j] == Some(thread) {
                None
            } else {
                p.threads[j]
            })
            &&& q.id == p.id && q.space == p.space && q.handles == p.handles
            &&& q.waiters == p.waiters && q.state == p.state && q.job == p.job
            &&& q.device_windows == p.device_windows && q.memory_mappings == p.memory_mappings
        }),
{
}

/// Forgetting the first of something takes that one: one that satisfies, if any
/// does, and nothing else.
pub proof fn law_forgetting_takes_one<T>(s: Seq<Option<T>>, p: spec_fn(Option<T>) -> bool)
    ensures
        without_first(s, p).len() == s.len(),
        (forall|k: int| 0 <= k < s.len() ==> !p(#[trigger] s[k])) ==> without_first(s, p) == s,
        forall|k: int|
            0 <= k < s.len() && p(#[trigger] s[k]) && (forall|j: int|
                0 <= j < k ==> !p(#[trigger] s[j])) ==> without_first(s, p) == s.update(k, None),
{
    slots::lemma_first(s, p);
    assert forall|k: int|
        0 <= k < s.len() && p(#[trigger] s[k]) && (forall|j: int|
            0 <= j < k ==> !p(#[trigger] s[j])) implies without_first(s, p) == s.update(k, None) by {
        slots::lemma_first_is(s, p, k);
    }
}

/// Each window that is revoked is unmapped where it was and as long as it was,
/// and told: which object, where, why, and whether the unmapping failed.
pub proof fn law_a_revoked_window_is_unmapped_and_told(
    windows: Seq<DeviceWindow>,
    object: ObjectId,
    reason: WindowRevokeReason,
    outcomes: Seq<Option<KError>>,
    i: int,
)
    requires
        0 <= i < windows.len(),
        outcomes.len() == windows.len(),
    ensures
        unmaps(windows).len() == windows.len(),
        unmaps(windows)[i] == (SpaceOp::UnmapDevice { va: windows[i].va, pages: windows[i].pages }),
        window_records(windows, object, reason, outcomes).len() == windows.len(),
        ({
            let told = window_records(windows, object, reason, outcomes)[i];
            told.object == object && told.va == windows[i].va && told.reason == reason
                && told.failed == outcomes[i]
        }),
        WindowRevokeReason::Transferred.number() == 1,
        WindowRevokeReason::HandleClosed.number() == 2,
        WindowRevokeReason::HolderGone.number() == 3,
        WindowRevokeReason::Removed.number() == 4,
{
}

/// Revoking an object's mappings asks for the pages of each of them, where it is
/// and as long as it is, takes off the list what was given back and keeps what
/// was not, and touches no mapping of another object.
pub proof fn law_an_objects_mappings_are_given_back<S: Space>(
    before: ProcessView<S>,
    after: ProcessView<S>,
    object: ObjectId,
    ok: Seq<bool>,
    i: int,
)
    requires
        before.wf(),
        mappings_revoked(before, after, object, ok, MAX_MEMORY_MAPPINGS as int),
        0 <= i < MAX_MEMORY_MAPPINGS,
    ensures
        match before.memory_mappings[i] {
            Some(m) => if m.object == object {
                &&& after.memory_mappings[i] == (if ok[i] {
                    None
                } else {
                    Some(m)
                })
                &&& exists|k: int|
                    before.space.trace().len() <= k < after.space.trace().len()
                        && #[trigger] after.space.trace()[k] == (SpaceOp::Reclaim {
                        va: m.va,
                        len: (m.pages * FRAME_SIZE) as u64,
                        ok: ok[i],
                    })
            } else {
                after.memory_mappings[i] == Some(m)
            },
            None => after.memory_mappings[i] is None,
        },
        before.space.trace().is_prefix_of(after.space.trace()),
        after.id == before.id,
        after.handles == before.handles,
        after.threads == before.threads,
        after.state == before.state,
        after.waiters == before.waiters,
        after.device_windows == before.device_windows,
{
    let n = MAX_MEMORY_MAPPINGS as int;
    let asked = reclaims(before.memory_mappings, object, ok, n);
    assert(before.space.trace().is_prefix_of(before.space.trace() + asked));
    if mapping_of(object)(before.memory_mappings[i]) {
        lemma_reclaim_is_asked(before.memory_mappings, object, ok, n, i);
        let m = before.memory_mappings[i]->0;
        let op = SpaceOp::Reclaim { va: m.va, len: (m.pages * FRAME_SIZE) as u64, ok: ok[i] };
        let k = choose|k: int| 0 <= k < asked.len() && asked[k] == op;
        assert(after.space.trace()[before.space.trace().len() + k] == op);
    }
}

/// A mapping of the object is among what is asked to be given back.
proof fn lemma_reclaim_is_asked(
    mappings: Seq<Option<MemoryMapping>>,
    object: ObjectId,
    ok: Seq<bool>,
    n: int,
    i: int,
)
    requires
        0 <= i < n <= mappings.len(),
        ok.len() == mappings.len(),
        mapping_of(object)(mappings[i]),
    ensures
        exists|k: int|
            0 <= k < reclaims(mappings, object, ok, n).len() && #[trigger] reclaims(
                mappings,
                object,
                ok,
                n,
            )[k] == (SpaceOp::Reclaim {
                va: mappings[i]->0.va,
                len: (mappings[i]->0.pages * FRAME_SIZE) as u64,
                ok: ok[i],
            }),
    decreases n,
{
    let all = reclaims(mappings, object, ok, n);
    let d = reclaims(mappings, object, ok, n - 1);
    let op = SpaceOp::Reclaim {
        va: mappings[i]->0.va,
        len: (mappings[i]->0.pages * FRAME_SIZE) as u64,
        ok: ok[i],
    };
    if i < n - 1 {
        lemma_reclaim_is_asked(mappings, object, ok, n - 1, i);
        let k = choose|k: int| 0 <= k < d.len() && d[k] == op;
        assert(all[k] == op);
    } else {
        assert(all[d.len() as int] == op);
    }
}

/// Each mapping's fate is told, in order: the object, where it was, why, and
/// whether giving it back failed.
pub proof fn law_a_revoked_mapping_is_told(
    mappings: Seq<Option<MemoryMapping>>,
    object: ObjectId,
    reason: WindowRevokeReason,
    failed: Seq<Option<KError>>,
    n: int,
)
    requires
        0 < n <= mappings.len(),
        failed.len() == mappings.len(),
    ensures
        ({
            let told = mapping_records(mappings, object, reason, failed, n);
            let earlier = mapping_records(mappings, object, reason, failed, n - 1);
            let fates = mapping_outcomes(mappings, object, failed, n);
            match mappings[n - 1] {
                Some(m) => if m.object == object {
                    &&& told.len() == earlier.len() + 1
                    &&& told.drop_last() == earlier
                    &&& told.last().object == object
                    &&& told.last().va == m.va
                    &&& told.last().reason == reason
                    &&& told.last().failed == failed[n - 1]
                    &&& fates.last() == failed[n - 1]
                } else {
                    told == earlier
                },
                None => told == earlier,
            }
        }),
        mapping_records(mappings, object, reason, failed, 0).len() == 0,
        none_failed(failed).len() == failed.len(),
        none_failed(failed)[n - 1] == (failed[n - 1] is None),
{
    let told = mapping_records(mappings, object, reason, failed, n);
    let earlier = mapping_records(mappings, object, reason, failed, n - 1);
    if mapping_of(object)(mappings[n - 1]) {
        assert(told.drop_last() =~= earlier);
    }
}

/// The objects a process has mapped are listed each once, and an object is
/// listed exactly when a mapping of it is recorded.
pub proof fn law_mapped_objects_are_listed_once(s: Seq<Option<MemoryMapping>>, object: ObjectId)
    ensures
        mapped(s).no_duplicates(),
        mapped(s).contains(object) <==> exists|i: int|
            0 <= i < s.len() && (#[trigger] s[i] matches Some(m) && m.object == object),
    decreases s.len(),
{
    if s.len() > 0 {
        let rest = s.drop_last();
        law_mapped_objects_are_listed_once(rest, object);
        let d = mapped(rest);
        let all = mapped(s);
        if let Some(m) = s.last() {
            law_mapped_objects_are_listed_once(rest, m.object);
            if !d.contains(m.object) {
                assert(all.last() == m.object);
                if d.contains(object) {
                    let k = choose|k: int| 0 <= k < d.len() && d[k] == object;
                    assert(all[k] == object);
                }
            }
        }
        if all.contains(object) {
            let k = choose|k: int| 0 <= k < all.len() && all[k] == object;
            if k < d.len() {
                assert(d[k] == object);
                assert(d.contains(object));
                let i = choose|i: int|
                    0 <= i < rest.len() && (#[trigger] rest[i] matches Some(m) && m.object
                        == object);
                assert(s[i] matches Some(m) && m.object == object);
            } else {
                assert(s[s.len() - 1] matches Some(m) && m.object == object);
            }
        }
        if exists|i: int| 0 <= i < s.len() && (#[trigger] s[i] matches Some(m) && m.object == object) {
            let i = choose|i: int|
                0 <= i < s.len() && (#[trigger] s[i] matches Some(m) && m.object == object);
            if i < rest.len() {
                assert(rest[i] matches Some(m) && m.object == object);
                assert(d.contains(object));
            }
        }
    }
}

} // verus!
