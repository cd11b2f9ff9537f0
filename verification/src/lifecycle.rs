//! The driver lifecycle: which transitions exist, which the device tree
//! permits yet, and the kernel's record of where each device is.
use vstd::prelude::*;
use crate::config::MAX_DEVICES;
use crate::object::ObjectId;
use crate::slots;

verus! {

/// Devices the lifecycle table tracks: one per resource-graph node.
pub const MAX_TRACKED: usize = MAX_DEVICES;

/// Where a device is in its life.
#[derive(Clone, Copy, PartialEq, Eq, Debug, Structural)]
pub enum DriverState {
    Discovered,
    Matched,
    Starting,
    Probing,
    Active,
    Suspending,
    Suspended,
    Resuming,
    Resetting,
    Degraded,
    Stopping,
    Removed,
    Failed,
}

/// The states that may follow `from`.
pub open spec fn successors(from: DriverState) -> Set<DriverState> {
    match from {
        DriverState::Discovered => set![
            DriverState::Matched,
            DriverState::Removed,
            DriverState::Failed,
        ],
        DriverState::Matched => set![
            DriverState::Starting,
            DriverState::Removed,
            DriverState::Failed,
        ],
        DriverState::Starting => set![
            DriverState::Probing,
            DriverState::Degraded,
            DriverState::Stopping,
            DriverState::Removed,
            DriverState::Failed,
        ],
        DriverState::Probing => set![
            DriverState::Active,
            DriverState::Degraded,
            DriverState::Stopping,
            DriverState::Removed,
            DriverState::Failed,
        ],
        DriverState::Active => set![
            DriverState::Suspending,
            DriverState::Resetting,
            DriverState::Degraded,
            DriverState::Stopping,
            DriverState::Removed,
            DriverState::Failed,
        ],
        DriverState::Suspending => set![
            DriverState::Suspended,
            DriverState::Degraded,
            DriverState::Removed,
            DriverState::Failed,
        ],
        DriverState::Suspended => set![
            DriverState::Resuming,
            DriverState::Stopping,
            DriverState::Degraded,
            DriverState::Removed,
            DriverState::Failed,
        ],
        DriverState::Resuming => set![
            DriverState::Active,
            DriverState::Degraded,
            DriverState::Removed,
            DriverState::Failed,
        ],
        DriverState::Resetting => set![
            DriverState::Active,
            DriverState::Probing,
            DriverState::Failed,
            DriverState::Removed,
        ],
        DriverState::Degraded => set![
            DriverState::Resetting,
            DriverState::Starting,
            DriverState::Active,
            DriverState::Stopping,
            DriverState::Removed,
            DriverState::Failed,
        ],
        DriverState::Stopping => set![DriverState::Removed, DriverState::Failed],
        DriverState::Removed => Set::empty(),
        DriverState::Failed => set![DriverState::Removed, DriverState::Discovered],
    }
}

/// Whether `from -> to` is a legal move.
pub open spec fn edge(from: DriverState, to: DriverState) -> bool {
    successors(from).contains(to)
}

/// Whether a state has a driver host behind it that could crash.
pub open spec fn bound(state: DriverState) -> bool {
    match state {
        DriverState::Starting | DriverState::Probing | DriverState::Active
        | DriverState::Suspending | DriverState::Suspended | DriverState::Resuming
        | DriverState::Resetting | DriverState::Degraded => true,
        DriverState::Discovered | DriverState::Matched | DriverState::Stopping
        | DriverState::Removed | DriverState::Failed => false,
    }
}

/// Whether `from -> to` is a legal move.
pub fn legal(from: DriverState, to: DriverState) -> (b: bool)
    ensures
        b == edge(from, to),
{
    match (from, to) {
        // Discovery to binding. A device may also be removed before anyone
        // binds it, and may fail to bind at all.
        (
            DriverState::Discovered,
            DriverState::Matched | DriverState::Removed | DriverState::Failed,
        ) => true,
        (
            DriverState::Matched,
            DriverState::Starting | DriverState::Removed | DriverState::Failed,
        ) => true,
        // Bring-up.
        (
            DriverState::Starting,
            DriverState::Probing | DriverState::Degraded | DriverState::Stopping
            | DriverState::Removed | DriverState::Failed,
        ) => true,
        (
            DriverState::Probing,
            DriverState::Active | DriverState::Degraded | DriverState::Stopping
            | DriverState::Removed | DriverState::Failed,
        ) => true,
        // In service. Everything a working device can do next.
        (
            DriverState::Active,
            DriverState::Suspending | DriverState::Resetting | DriverState::Degraded
            | DriverState::Stopping | DriverState::Removed | DriverState::Failed,
        ) => true,
        // Power. A suspend or resume that goes wrong lands in `Degraded`: the
        // device is still there and still bound.
        (
            DriverState::Suspending,
            DriverState::Suspended | DriverState::Degraded | DriverState::Removed
            | DriverState::Failed,
        ) => true,
        (
            DriverState::Suspended,
            DriverState::Resuming | DriverState::Stopping | DriverState::Degraded
            | DriverState::Removed | DriverState::Failed,
        ) => true,
        (
            DriverState::Resuming,
            DriverState::Active | DriverState::Degraded | DriverState::Removed
            | DriverState::Failed,
        ) => true,
        // Reset. Failure is `Failed`, not `Degraded`: there is nothing weaker
        // left to try.
        (
            DriverState::Resetting,
            DriverState::Active | DriverState::Probing | DriverState::Failed
            | DriverState::Removed,
        ) => true,
        // Degraded: reset it, restart its driver, restore it, or stop trying.
        (
            DriverState::Degraded,
            DriverState::Resetting | DriverState::Starting | DriverState::Active
            | DriverState::Stopping | DriverState::Removed | DriverState::Failed,
        ) => true,
        // Teardown.
        (DriverState::Stopping, DriverState::Removed | DriverState::Failed) => true,
        // Failed is reversible by re-enumeration; Removed is not reversible.
        (DriverState::Failed, DriverState::Removed | DriverState::Discovered) => true,
        _ => false,
    }
}

/// Whether a state has a driver host behind it that could crash.
pub fn is_bound(state: DriverState) -> (b: bool)
    ensures
        b == bound(state),
{
    matches!(
        state,
        DriverState::Starting | DriverState::Probing | DriverState::Active
            | DriverState::Suspending | DriverState::Suspended | DriverState::Resuming
            | DriverState::Resetting | DriverState::Degraded
    )
}

/// Which neighbour in the device tree blocks a power transition.
#[derive(Clone, Copy, PartialEq, Eq, Debug, Structural)]
pub enum NeighbourBlock {
    /// The child at this index is still bound and not suspended.
    Child { index: usize, state: DriverState },
    /// The parent is bound and not back in service.
    Parent { state: DriverState },
}

/// The predicate of a child that keeps its parent from suspending.
pub open spec fn awake() -> spec_fn(Option<DriverState>) -> bool {
    |o: Option<DriverState>| o matches Some(s) && bound(s) && s != DriverState::Suspended
}

/// The neighbour that blocks a move to `to`, if one does: the first child still
/// awake under a parent that suspends, or a parent that is not back under a
/// leaf that resumes.
pub open spec fn blocker(
    to: DriverState,
    children: Seq<Option<DriverState>>,
    parent: Option<DriverState>,
) -> Option<NeighbourBlock> {
    match to {
        DriverState::Suspending => {
            let at = slots::first(children, awake());
            if at < children.len() {
                Some(NeighbourBlock::Child { index: at as usize, state: children[at]->0 })
            } else {
                None
            }
        },
        DriverState::Resuming => match parent {
            Some(state) => if bound(state) && state != DriverState::Active {
                Some(NeighbourBlock::Parent { state })
            } else {
                None
            },
            None => None,
        },
        _ => None,
    }
}

/// Whether the device tree permits this transition yet: leaves suspend before
/// parents, and parents resume before leaves. A neighbour with no recorded
/// state, or one that is not bound, does not block.
pub fn neighbours_permit(
    to: DriverState,
    children: &[Option<DriverState>],
    parent: Option<DriverState>,
) -> (r: Result<(), NeighbourBlock>)
    ensures
        match r {
            Ok(_) => blocker(to, children@, parent) is None,
            Err(b) => blocker(to, children@, parent) == Some(b),
        },
{
    match to {
        DriverState::Suspending => {
            let mut index: usize = 0;
            while index < children.len()
                invariant
                    index <= children@.len(),
                    to == DriverState::Suspending,
                    forall|j: int| 0 <= j < index ==> !awake()(#[trigger] children@[j]),
                decreases children@.len() - index,
            {
                if let Some(state) = children[index] {
                    if is_bound(state) && !matches!(state, DriverState::Suspended) {
                        proof {
                            slots::lemma_first_is(children@, awake(), index as int);
                        }
                        return Err(NeighbourBlock::Child { index, state });
                    }
                }
                index += 1;
            }
            proof {
                slots::lemma_first_is(children@, awake(), index as int);
            }
            Ok(())
        },
        DriverState::Resuming => match parent {
            Some(state) => if is_bound(state) && !matches!(state, DriverState::Active) {
                Err(NeighbourBlock::Parent { state })
            } else {
                Ok(())
            },
            None => Ok(()),
        },
        // Every other transition is the device's own business.
        _ => Ok(()),
    }
}

/// Why a declared transition was refused.
#[derive(Clone, Copy, PartialEq, Eq, Debug, Structural)]
pub enum TransitionError {
    /// The caller's `from` is not the state the kernel has recorded.
    StaleFrom {
        /// What the kernel has.
        recorded: DriverState,
    },
    /// The edge does not exist.
    Illegal,
    /// The table is full.
    OutOfSpace,
    /// The edge is legal and the device tree does not permit it yet.
    OutOfOrder {
        /// The neighbour in the way, and what state it is in.
        neighbour: ObjectId,
        state: DriverState,
    },
}

/// One device's recorded state.
#[derive(Clone, Copy, PartialEq, Eq, Debug, Structural)]
pub struct LifecycleRecord {
    pub device: ObjectId,
    pub state: DriverState,
}

/// The kernel's record of where each device is in its lifecycle. A device with
/// no entry has no recorded state, which is a different thing from being
/// `Discovered`.
pub struct LifecycleTable {
    records: Vec<Option<LifecycleRecord>>,
}

/// The predicate of `device`'s entry.
pub open spec fn entry_of(device: ObjectId) -> spec_fn(Option<LifecycleRecord>) -> bool {
    |o: Option<LifecycleRecord>| o matches Some(t) && t.device == device
}

/// The state recorded for `device`, if any.
pub open spec fn recorded(t: Seq<Option<LifecycleRecord>>, device: ObjectId) -> Option<DriverState> {
    let at = slots::first(t, entry_of(device));
    if at < t.len() {
        Some(t[at]->0.state)
    } else {
        None
    }
}

/// What a transition's `from` is compared with: the recorded state, or the
/// beginning.
pub open spec fn standing(t: Seq<Option<LifecycleRecord>>, device: ObjectId) -> DriverState {
    match recorded(t, device) {
        Some(s) => s,
        None => DriverState::Discovered,
    }
}

/// The first free slot, or the capacity.
pub open spec fn lifecycle_vacancy(t: Seq<Option<LifecycleRecord>>) -> int {
    slots::first(t, slots::free::<LifecycleRecord>())
}

/// Why `device` may not move from `from` to `to`, if it may not.
pub open spec fn objection(
    t: Seq<Option<LifecycleRecord>>,
    device: ObjectId,
    from: DriverState,
    to: DriverState,
) -> Option<TransitionError> {
    if from != standing(t, device) {
        Some(TransitionError::StaleFrom { recorded: standing(t, device) })
    } else if !edge(from, to) {
        Some(TransitionError::Illegal)
    } else if recorded(t, device) is None && lifecycle_vacancy(t) == t.len() {
        Some(TransitionError::OutOfSpace)
    } else {
        None
    }
}

/// The record after `device` moves to `to`: its entry changed, or a new one in
/// the first free slot.
pub open spec fn moved(t: Seq<Option<LifecycleRecord>>, device: ObjectId, to: DriverState) -> Seq<
    Option<LifecycleRecord>,
> {
    let at = slots::first(t, entry_of(device));
    t.update(
        if at < t.len() {
            at
        } else {
            lifecycle_vacancy(t)
        },
        Some(LifecycleRecord { device, state: to }),
    )
}

/// The record without `device`.
pub open spec fn forgotten(t: Seq<Option<LifecycleRecord>>, device: ObjectId) -> Seq<Option<LifecycleRecord>> {
    Seq::new(
        t.len(),
        |i: int|
            if entry_of(device)(t[i]) {
                None
            } else {
                t[i]
            },
    )
}

impl View for LifecycleTable {
    type V = Seq<Option<LifecycleRecord>>;

    closed spec fn view(&self) -> Seq<Option<LifecycleRecord>> {
        self.records@
    }
}

impl LifecycleTable {
    /// The table's invariant.
    pub open spec fn wf(&self) -> bool {
        self@.len() == MAX_TRACKED
    }

    pub fn new() -> (t: LifecycleTable)
        ensures
            t.wf(),
            t@ == slots::empty::<LifecycleRecord>(MAX_TRACKED as nat),
    {
        LifecycleTable { records: slots::empty_slots(MAX_TRACKED) }
    }

    /// The state recorded for `device`, if any.
    pub fn state_of(&self, device: ObjectId) -> (r: Option<DriverState>)
        requires
            self.wf(),
        ensures
            r == recorded(self@, device),
    {
        match self.find(device) {
            None => None,
            Some(i) => match self.records[i] {
                Some(t) => Some(t.state),
                None => None,
            },
        }
    }

    /// Records the transition `from -> to` for `device`, or says why it was
    /// refused. The first transition for a device has nothing recorded to be
    /// compared with, so it must start at the beginning: a lifecycle opens at
    /// `Discovered` or not at all.
    pub fn declare(&mut self, device: ObjectId, from: DriverState, to: DriverState) -> (r: Result<
        (),
        TransitionError,
    >)
        requires
            old(self).wf(),
        ensures
            final(self).wf(),
            match r {
                Ok(_) => {
                    &&& objection(old(self)@, device, from, to) is None
                    &&& final(self)@ == moved(old(self)@, device, to)
                },
                Err(e) => {
                    &&& objection(old(self)@, device, from, to) == Some(e)
                    &&& final(self)@ == old(self)@
                },
            },
    {
        proof {
            slots::lemma_first(self@, entry_of(device));
        }
        match self.state_of(device) {
            Some(recorded) => {
                if recorded != from {
                    return Err(TransitionError::StaleFrom { recorded });
                }
            },
            None => {
                if from != DriverState::Discovered {
                    return Err(
                        TransitionError::StaleFrom { recorded: DriverState::Discovered },
                    );
                }
            },
        }
        if !legal(from, to) {
            return Err(TransitionError::Illegal);
        }
        match self.find(device) {
            Some(i) => {
                self.records[i] = Some(LifecycleRecord { device, state: to });
                Ok(())
            },
            None => match slots::find_free(&self.records) {
                None => Err(TransitionError::OutOfSpace),
                Some(slot) => {
                    self.records[slot] = Some(LifecycleRecord { device, state: to });
                    Ok(())
                },
            },
        }
    }

    /// Forgets `device`'s lifecycle: for a node leaving the graph, so a
    /// re-plugged device does not inherit the history of what was there.
    pub fn forget(&mut self, device: ObjectId)
        requires
            old(self).wf(),
        ensures
            final(self).wf(),
            final(self)@ == forgotten(old(self)@, device),
    {
        let ghost before = self@;
        let mut i: usize = 0;
        while i < MAX_TRACKED
            invariant
                self.wf(),
                before.len() == MAX_TRACKED,
                i <= MAX_TRACKED,
                forall|j: int|
                    0 <= j < MAX_TRACKED ==> #[trigger] self@[j] == (if j < i && entry_of(device)(
                        before[j],
                    ) {
                        None
                    } else {
                        before[j]
                    }),
            decreases MAX_TRACKED - i,
        {
            assert(self@[i as int] == before[i as int]);
            if let Some(t) = self.records[i] {
                if t.device == device {
                    self.records[i] = None;
                }
            }
            i += 1;
        }
        assert(self@ =~= forgotten(before, device));
    }

    /// Devices with a recorded lifecycle.
    pub fn tracked_count(&self) -> (n: usize)
        ensures
            n == slots::count(self@, slots::used::<LifecycleRecord>()),
    {
        slots::count_used(&self.records)
    }

    fn find(&self, device: ObjectId) -> (r: Option<usize>)
        requires
            self.wf(),
        ensures
            match r {
                Some(i) => i == slots::first(self@, entry_of(device)) && i < MAX_TRACKED
                    && self@[i as int] is Some,
                None => slots::first(self@, entry_of(device)) == MAX_TRACKED,
            },
    {
        let mut i: usize = 0;
        while i < MAX_TRACKED
            invariant
                self.wf(),
                i <= MAX_TRACKED,
                forall|j: int| 0 <= j < i ==> !entry_of(device)(#[trigger] self@[j]),
            decreases MAX_TRACKED - i,
        {
            if let Some(t) = self.records[i] {
                if t.device == device {
                    proof {
                        slots::lemma_first_is(self@, entry_of(device), i as int);
                    }
                    return Some(i);
                }
            }
            i += 1;
        }
        proof {
            slots::lemma_first_is(self@, entry_of(device), i as int);
        }
        None
    }
}

impl Default for LifecycleTable {
    fn default() -> (t: LifecycleTable)
        ensures
            t.wf(),
            t@ == slots::empty::<LifecycleRecord>(MAX_TRACKED as nat),
    {
        LifecycleTable::new()
    }
}

/// A state never transitions to itself.
pub proof fn law_no_self_edge(state: DriverState)
    ensures
        !edge(state, state),
{
}

/// `Removed` is terminal.
pub proof fn law_removed_is_terminal(to: DriverState)
    ensures
        !edge(DriverState::Removed, to),
{
}

/// `Failed` is left only by removal or deliberate rediscovery.
pub proof fn law_failed_is_reversible_only_by_removal_or_rediscovery(to: DriverState)
    ensures
        edge(DriverState::Failed, to) <==> (to == DriverState::Removed || to
            == DriverState::Discovered),
{
}

/// Everything with a running driver behind it can fail, and can degrade unless
/// it is degraded already or being reset; nothing unbound can degrade.
pub proof fn law_anything_bound_can_fail_or_degrade(state: DriverState)
    ensures
        bound(state) ==> edge(state, DriverState::Failed),
        edge(state, DriverState::Degraded) <==> (bound(state) && state != DriverState::Degraded
            && state != DriverState::Resetting),
{
}

/// Every state but `Removed` itself can be left by removal.
pub proof fn law_anything_can_be_removed(state: DriverState)
    ensures
        state != DriverState::Removed ==> edge(state, DriverState::Removed),
{
}

/// Power passes through its intermediate states: only a suspending device
/// becomes suspended, and a suspended one is back in service only by resuming.
pub proof fn law_power_passes_through_its_intermediate_states(state: DriverState)
    ensures
        edge(state, DriverState::Suspended) ==> state == DriverState::Suspending,
        edge(state, DriverState::Suspending) ==> state == DriverState::Active,
        edge(state, DriverState::Resuming) ==> state == DriverState::Suspended,
        !edge(DriverState::Suspended, DriverState::Active),
{
}

/// The stream is a sequence: a recorded move starts where the last one for the
/// device ended, and ends where it says.
pub proof fn law_record_is_a_sequence(
    t: Seq<Option<LifecycleRecord>>,
    device: ObjectId,
    from: DriverState,
    to: DriverState,
)
    requires
        objection(t, device, from, to) is None,
    ensures
        standing(t, device) == from,
        recorded(moved(t, device, to), device) == Some(to),
{
    let u = moved(t, device, to);
    slots::lemma_first(t, entry_of(device));
    slots::lemma_first(t, slots::free::<LifecycleRecord>());
    let at = slots::first(t, entry_of(device));
    if at < t.len() {
        slots::lemma_first_is(u, entry_of(device), at);
    } else {
        slots::lemma_first_is(u, entry_of(device), lifecycle_vacancy(t));
    }
}

/// Devices have independent lifecycles: a move of one leaves every other's
/// record alone, and so does forgetting it.
pub proof fn law_lifecycles_are_independent(
    t: Seq<Option<LifecycleRecord>>,
    device: ObjectId,
    from: DriverState,
    to: DriverState,
    other: ObjectId,
)
    requires
        other != device,
    ensures
        objection(t, device, from, to) is None ==> recorded(moved(t, device, to), other)
            == recorded(t, other),
        recorded(forgotten(t, device), other) == recorded(t, other),
        recorded(forgotten(t, device), device) is None,
{
    let u = moved(t, device, to);
    let v = forgotten(t, device);
    slots::lemma_first(t, entry_of(device));
    slots::lemma_first(t, entry_of(other));
    slots::lemma_first(t, slots::free::<LifecycleRecord>());
    let at = slots::first(t, entry_of(other));
    slots::lemma_first_is(v, entry_of(device), v.len() as int);
    slots::lemma_first_is(v, entry_of(other), at);
    if objection(t, device, from, to) is None {
        if at < t.len() {
            assert(entry_of(other)(t[at]));
        }
        slots::lemma_first_is(u, entry_of(other), at);
    }
}

/// Leaves before parents, and parents before leaves on the way back: a
/// permitted suspend has no child awake, and a permitted resume has a parent
/// in service or none that is bound.
pub proof fn law_power_order(
    children: Seq<Option<DriverState>>,
    parent: Option<DriverState>,
    i: int,
)
    requires
        0 <= i < children.len(),
    ensures
        blocker(DriverState::Suspending, children, parent) is None ==> (children[i] matches Some(s)
            ==> !bound(s) || s == DriverState::Suspended),
        blocker(DriverState::Resuming, children, parent) is None ==> (parent matches Some(s)
            ==> !bound(s) || s == DriverState::Active),
{
    slots::lemma_first(children, awake());
    if blocker(DriverState::Suspending, children, parent) is None {
        assert(!awake()(children[i]));
    }
}

/// Only the two power transitions consult the neighbours.
pub proof fn law_only_power_is_ordered(
    to: DriverState,
    children: Seq<Option<DriverState>>,
    parent: Option<DriverState>,
)
    requires
        to != DriverState::Suspending,
        to != DriverState::Resuming,
    ensures
        blocker(to, children, parent) is None,
{
}

/// Which states a driver can come from, for each state it can come to.
pub proof fn law_each_state_has_its_ways_in(s: DriverState)
    ensures
        edge(s, DriverState::Discovered) <==> s == DriverState::Failed,
        edge(s, DriverState::Matched) <==> s == DriverState::Discovered,
        edge(s, DriverState::Starting) <==> s == DriverState::Matched || s == DriverState::Degraded,
        edge(s, DriverState::Probing) <==> s == DriverState::Starting || s
            == DriverState::Resetting,
        edge(s, DriverState::Active) <==> s == DriverState::Probing || s == DriverState::Resuming
            || s == DriverState::Resetting || s == DriverState::Degraded,
        edge(s, DriverState::Suspending) <==> s == DriverState::Active,
        edge(s, DriverState::Suspended) <==> s == DriverState::Suspending,
        edge(s, DriverState::Resuming) <==> s == DriverState::Suspended,
        edge(s, DriverState::Resetting) <==> s == DriverState::Active || s == DriverState::Degraded,
        edge(s, DriverState::Stopping) <==> s == DriverState::Starting || s == DriverState::Probing
            || s == DriverState::Active || s == DriverState::Suspended || s
            == DriverState::Degraded,
        edge(s, DriverState::Removed) <==> s != DriverState::Removed,
        edge(s, DriverState::Failed) <==> s != DriverState::Removed && s != DriverState::Failed,
{
}

/// A driver runs in every state from its start to its stop and in no other.
pub proof fn law_a_driver_runs_between_start_and_stop(s: DriverState)
    ensures
        bound(s) <==> s != DriverState::Discovered && s != DriverState::Matched && s
            != DriverState::Stopping && s != DriverState::Removed && s != DriverState::Failed,
{
}

/// A transition is refused for a reason that holds: the record says otherwise of
/// where the device is, no such step exists, or there is no room for a new
/// record. The record of a device is the one under its id, and a device without
/// one has only been discovered.
pub proof fn law_a_transition_is_refused_for_cause(
    t: Seq<Option<LifecycleRecord>>,
    device: ObjectId,
    from: DriverState,
    to: DriverState,
)
    ensures
        from != standing(t, device) ==> objection(t, device, from, to) == Some(
            TransitionError::StaleFrom { recorded: standing(t, device) },
        ),
        from == standing(t, device) && !edge(from, to) ==> objection(t, device, from, to) == Some(
            TransitionError::Illegal,
        ),
        from == standing(t, device) && edge(from, to) && recorded(t, device) is Some ==> objection(
            t,
            device,
            from,
            to,
        ) is None,
        from == standing(t, device) && edge(from, to) && recorded(t, device) is None && (exists|
            k: int,
        |
            0 <= k < t.len() && #[trigger] t[k] is None) ==> objection(t, device, from, to) is None,
        from == standing(t, device) && edge(from, to) && recorded(t, device) is None && (forall|
            k: int,
        |
            0 <= k < t.len() ==> #[trigger] t[k] is Some) ==> objection(t, device, from, to) == Some(
            TransitionError::OutOfSpace,
        ),
        recorded(t, device) is None ==> standing(t, device) == DriverState::Discovered,
        recorded(t, device) matches Some(s) ==> standing(t, device) == s && exists|k: int|
            0 <= k < t.len() && (#[trigger] t[k] matches Some(r) && r.device == device && r.state
                == s),
        recorded(t, device) is None <==> forall|k: int|
            0 <= k < t.len() ==> (#[trigger] t[k] matches Some(r) ==> r.device != device),
{
    let free = slots::free::<LifecycleRecord>();
    slots::lemma_first(t, free);
    slots::lemma_first(t, entry_of(device));
    let at = slots::first(t, entry_of(device));
    if at < t.len() {
        assert(entry_of(device)(t[at]));
        assert(t[at] is Some);
    } else {
        assert forall|k: int| 0 <= k < t.len() implies (#[trigger] t[k] matches Some(r) ==> r.device
            != device) by {
            assert(!entry_of(device)(t[k]));
        }
    }
    if exists|k: int| 0 <= k < t.len() && #[trigger] t[k] is None {
        let k = choose|k: int| 0 <= k < t.len() && #[trigger] t[k] is None;
        assert(free(t[k]));
    } else {
        assert forall|k: int| 0 <= k < t.len() implies !free(#[trigger] t[k]) by {}
        slots::lemma_first_is(t, free, t.len() as int);
    }
}

/// A neighbour in the way is one that really is: the first child that is awake
/// when suspending, and a parent that runs but is not in service when resuming.
pub proof fn law_a_blocker_is_in_the_way(
    children: Seq<Option<DriverState>>,
    parent: Option<DriverState>,
)
    requires
        children.len() <= usize::MAX,
    ensures
        blocker(DriverState::Suspending, children, parent) matches Some(b) ==> (
        b matches NeighbourBlock::Child { index, state } && index < children.len()
            && children[index as int] == Some(state) && bound(state) && state
            != DriverState::Suspended && forall|k: int|
            0 <= k < index ==> (#[trigger] children[k] matches Some(s) ==> !bound(s) || s
                == DriverState::Suspended)),
        (exists|k: int|
            0 <= k < children.len() && (#[trigger] children[k] matches Some(s) && bound(s) && s
                != DriverState::Suspended)) ==> blocker(
            DriverState::Suspending,
            children,
            parent,
        ) is Some,
        blocker(DriverState::Resuming, children, parent) matches Some(b) ==> (
        b matches NeighbourBlock::Parent { state } && parent == Some(state) && bound(state) && state
            != DriverState::Active),
        (parent matches Some(s) && bound(s) && s != DriverState::Active) ==> blocker(
            DriverState::Resuming,
            children,
            parent,
        ) is Some,
{
    slots::lemma_first(children, awake());
    let at = slots::first(children, awake());
    assert forall|k: int| 0 <= k < at implies (#[trigger] children[k] matches Some(s) ==> !bound(s)
        || s == DriverState::Suspended) by {
        assert(!awake()(children[k]));
    }
    if exists|k: int|
        0 <= k < children.len() && (#[trigger] children[k] matches Some(s) && bound(s) && s
            != DriverState::Suspended) {
        let k = choose|k: int|
            0 <= k < children.len() && (#[trigger] children[k] matches Some(s) && bound(s) && s
                != DriverState::Suspended);
        assert(awake()(children[k]));
    }
}

} // verus!
