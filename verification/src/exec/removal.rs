//! Devices that leave: handed back from a dead driver, or pulled out of the
//! machine with everything behind them, and who is told.
use vstd::prelude::*;
use crate::config::{MAX_CPUS, MAX_DEPENDENTS, MAX_INLINE_BYTES};
use crate::devmgr::{behind, device, devices_where, parent, DeviceIdentity};
use crate::error::KError;
use crate::exec::ports::{lemma_signalled_frame, lemma_woken_frame};
use crate::exec::records::DeviceRecord;
use crate::exec::{ExecView, Executive, MachineView, SERVICE_NOTICE_SIZE};
use crate::ipc::{EndpointId, Message, MessageHeader, MessageView};
use crate::lifecycle::{
    blocker, moved, neighbours_permit, objection, recorded, DriverState, LifecycleRecord,
    NeighbourBlock, TransitionError,
};
use crate::object::ObjectId;
use crate::slots;

verus! {

/// What a device may be reset for.
#[derive(Clone, Copy, PartialEq, Eq, Debug, Structural)]
pub enum ResetPolicy {
    /// Never.
    Never,
    /// When a driver has failed.
    OnFailure,
}

/// What a request to reset a device comes to.
pub enum ResetStep {
    /// Policy declined: the hardware is not touched.
    Declined,
    /// There is nothing here that can reset a device.
    Unsupported,
    /// The hardware is to be reset, knowing this about the device.
    Attempt { identity: Option<DeviceIdentity>, window: Option<(u64, u64)> },
}

/// The wire numbers of a state and of the reason for entering it.
#[derive(Clone, Copy, PartialEq, Eq, Debug, Structural)]
pub struct NoticeCodes {
    pub state: u32,
    pub reason: u32,
}

/// The wire number of every state.
#[derive(Clone, Copy, PartialEq, Eq, Debug, Structural)]
pub struct StateNumbers {
    pub discovered: u32,
    pub matched: u32,
    pub starting: u32,
    pub probing: u32,
    pub active: u32,
    pub suspending: u32,
    pub suspended: u32,
    pub resuming: u32,
    pub resetting: u32,
    pub degraded: u32,
    pub stopping: u32,
    pub removed: u32,
    pub failed: u32,
}

impl StateNumbers {
    /// The number of `state`.
    pub open spec fn of(self, state: DriverState) -> u32 {
        match state {
            DriverState::Discovered => self.discovered,
            DriverState::Matched => self.matched,
            DriverState::Starting => self.starting,
            DriverState::Probing => self.probing,
            DriverState::Active => self.active,
            DriverState::Suspending => self.suspending,
            DriverState::Suspended => self.suspended,
            DriverState::Resuming => self.resuming,
            DriverState::Resetting => self.resetting,
            DriverState::Degraded => self.degraded,
            DriverState::Stopping => self.stopping,
            DriverState::Removed => self.removed,
            DriverState::Failed => self.failed,
        }
    }

    /// The numbers of `state`, entered for the reason numbered `reason`.
    pub open spec fn codes(self, state: DriverState, reason: u32) -> NoticeCodes {
        NoticeCodes { state: self.of(state), reason }
    }

    fn numbered(self, state: DriverState, reason: u32) -> (c: NoticeCodes)
        ensures
            c == self.codes(state, reason),
    {
        let state: u32 = match state {
            DriverState::Discovered => self.discovered,
            DriverState::Matched => self.matched,
            DriverState::Starting => self.starting,
            DriverState::Probing => self.probing,
            DriverState::Active => self.active,
            DriverState::Suspending => self.suspending,
            DriverState::Suspended => self.suspended,
            DriverState::Resuming => self.resuming,
            DriverState::Resetting => self.resetting,
            DriverState::Degraded => self.degraded,
            DriverState::Stopping => self.stopping,
            DriverState::Removed => self.removed,
            DriverState::Failed => self.failed,
        };
        NoticeCodes { state, reason }
    }

    /// The numbers of a removal for the reason numbered `reason`.
    pub(crate) fn removal(self, reason: u32) -> (c: NoticeCodes)
        ensures
            c == self.codes(DriverState::Removed, reason),
    {
        self.numbered(DriverState::Removed, reason)
    }
}

/// Version of the service notice.
pub const SERVICE_NOTICE_VERSION: u32 = 1;

/// The four bytes of `x`, lowest first.
pub open spec fn bytes_of(x: u32) -> Seq<u8> {
    seq![
        (x % 256) as u8,
        (x / 256 % 256) as u8,
        (x / 65536 % 256) as u8,
        (x / 16777216) as u8,
    ]
}

/// The body of the notice that `device` is in the state `codes` names: size,
/// version, eight bytes of flags, device, state, reason, and four spare bytes.
pub open spec fn notice_body(device: ObjectId, codes: NoticeCodes) -> Seq<u8> {
    bytes_of(SERVICE_NOTICE_SIZE as u32) + bytes_of(SERVICE_NOTICE_VERSION) + bytes_of(0)
        + bytes_of(0) + bytes_of(device.0) + bytes_of(codes.state) + bytes_of(codes.reason)
        + bytes_of(0)
}

/// The header of a message from the kernel itself.
pub open spec fn kernel_header() -> MessageHeader {
    MessageHeader { interface_id: 0, method_id: 0, flags: 0, txn_id: 0, correlation: 0 }
}

/// The notice that `device` is in the state `codes` names.
pub open spec fn notice(device: ObjectId, codes: NoticeCodes) -> MessageView {
    MessageView {
        header: kernel_header(),
        inline: notice_body(device, codes),
        handles: Seq::empty(),
    }
}

/// Who depends on `id`.
pub open spec fn dependents(t: crate::devmgr::DevicesView, id: ObjectId) -> Seq<EndpointId> {
    match device(t, id) {
        Some(n) => n.dependents,
        None => Seq::empty(),
    }
}

/// The recorded states of `list`, in order.
pub open spec fn states_of(t: Seq<Option<LifecycleRecord>>, list: Seq<ObjectId>) -> Seq<
    Option<DriverState>,
> {
    list.map_values(|id: ObjectId| recorded(t, id))
}

impl ExecView {
    /// With the lifecycle record replaced.
    pub open spec fn with_lifecycle(self, lifecycle: Seq<Option<LifecycleRecord>>) -> ExecView {
        ExecView { machine: MachineView { lifecycle, ..self.machine }, ..self }
    }

    /// The executive after `m` is sent from each of `ends`, in order, wherever
    /// there is room.
    pub open spec fn sent_each(
        self,
        cpu: u32,
        ends: Seq<EndpointId>,
        m: MessageView,
        cause: u64,
    ) -> ExecView
        decreases ends.len(),
    {
        if ends.len() == 0 {
            self
        } else {
            self.sent_each(cpu, ends.drop_last(), m, cause).sent_for(cpu, ends.last(), m, cause)
        }
    }

    /// How many of those sends there was room for.
    pub open spec fn sent_count(
        self,
        cpu: u32,
        ends: Seq<EndpointId>,
        m: MessageView,
        cause: u64,
    ) -> nat
        decreases ends.len(),
    {
        if ends.len() == 0 {
            0
        } else {
            self.sent_count(cpu, ends.drop_last(), m, cause) + if self.sent_each(
                cpu,
                ends.drop_last(),
                m,
                cause,
            ).send_result(ends.last()) is Ok {
                1nat
            } else {
                0nat
            }
        }
    }

    /// Why `id` may not move from `from` to `to`, if it may not: a neighbour in
    /// the device tree first, then the record.
    pub open spec fn lifecycle_objection(self, id: ObjectId, from: DriverState, to: DriverState) -> Option<
        TransitionError,
    > {
        let t = self.machine.devices;
        let children = devices_where(t, behind(id));
        let above = match parent(t, id) {
            Some(p) => recorded(self.machine.lifecycle, p),
            None => None,
        };
        match blocker(to, states_of(self.machine.lifecycle, children), above) {
            Some(NeighbourBlock::Child { index, state }) => Some(
                TransitionError::OutOfOrder { neighbour: children[index as int], state },
            ),
            Some(NeighbourBlock::Parent { state }) => Some(
                TransitionError::OutOfOrder { neighbour: parent(t, id)->0, state },
            ),
            None => objection(self.machine.lifecycle, id, from, to),
        }
    }

    /// The executive after `id` is declared to move to `to`, if it may.
    pub open spec fn declared(self, id: ObjectId, from: DriverState, to: DriverState) -> ExecView {
        if self.lifecycle_objection(id, from, to) is None {
            self.with_lifecycle(moved(self.machine.lifecycle, id, to))
        } else {
            self
        }
    }
}

/// Sending a message leaves everything but channels, ports, ready queues and
/// the wakeup box alone.
pub proof fn lemma_sent_frame(v: ExecView, cpu: u32, from: EndpointId, m: MessageView, cause: u64)
    requires
        v.cpus.len() == MAX_CPUS,
    ensures
        ({
            let w = v.sent_for(cpu, from, m, cause);
            &&& w.cpus.len() == MAX_CPUS
            &&& w.machine == (MachineView {
                channels: w.machine.channels,
                ports: w.machine.ports,
                posted: w.machine.posted,
                ..v.machine
            })
        }),
{
    let to = from.peer();
    if let Some(e) = v.end(to) {
        if !e.full() {
            let a = v.with_end(to, e.enqueued(m.with_correlation(cause)).with_receiver(None));
            let b = a.woken_if(cpu, e.blocked_receiver);
            if let Some(id) = e.blocked_receiver {
                lemma_woken_frame(a, cpu, id);
            }
            if let Some(o) = crate::ipc::object_at(v.machine.channels, to) {
                lemma_signalled_frame(b, cpu, o.0 as u64, crate::ipc::SIGNAL_MESSAGE, 1);
            }
        }
    }
}

/// The same of sending to several.
pub proof fn lemma_sent_each_frame(
    v: ExecView,
    cpu: u32,
    ends: Seq<EndpointId>,
    m: MessageView,
    cause: u64,
)
    requires
        v.cpus.len() == MAX_CPUS,
    ensures
        ({
            let w = v.sent_each(cpu, ends, m, cause);
            &&& w.cpus.len() == MAX_CPUS
            &&& w.machine == (MachineView {
                channels: w.machine.channels,
                ports: w.machine.ports,
                posted: w.machine.posted,
                ..v.machine
            })
        }),
        v.sent_count(cpu, ends, m, cause) <= ends.len(),
    decreases ends.len(),
{
    if ends.len() > 0 {
        lemma_sent_each_frame(v, cpu, ends.drop_last(), m, cause);
        lemma_sent_frame(
            v.sent_each(cpu, ends.drop_last(), m, cause),
            cpu,
            ends.last(),
            m,
            cause,
        );
    }
}

fn push_bytes(out: &mut Vec<u8>, x: u32)
    ensures
        final(out)@ == old(out)@ + bytes_of(x),
{
    out.push((x % 256) as u8);
    out.push((x / 256 % 256) as u8);
    out.push((x / 65536 % 256) as u8);
    out.push((x / 16777216) as u8);
    assert(out@ =~= old(out)@ + bytes_of(x));
}

fn encode_notice(device: ObjectId, codes: NoticeCodes) -> (body: Vec<u8>)
    ensures
        body@ == notice_body(device, codes),
        body@.len() == SERVICE_NOTICE_SIZE,
{
    let mut body: Vec<u8> = Vec::new();
    push_bytes(&mut body, SERVICE_NOTICE_SIZE as u32);
    push_bytes(&mut body, SERVICE_NOTICE_VERSION);
    push_bytes(&mut body, 0);
    push_bytes(&mut body, 0);
    push_bytes(&mut body, device.0);
    push_bytes(&mut body, codes.state);
    push_bytes(&mut body, codes.reason);
    push_bytes(&mut body, 0);
    assert(body@ =~= notice_body(device, codes));
    body
}

impl Executive {
    /// Records a lifecycle transition of `id`, if the device tree and the
    /// record permit it, and reports it in `log` with the number of its reason
    /// and a detail that is not interpreted.
    pub fn declare_lifecycle(
        &mut self,
        id: ObjectId,
        from: DriverState,
        to: DriverState,
        reason: u32,
        detail: u64,
        log: &mut Vec<DeviceRecord>,
    ) -> (r: Result<(), TransitionError>)
        requires
            old(self).wf(),
        ensures
            final(self).wf(),
            final(log)@ == (if r is Ok {
                old(log)@.push(DeviceRecord::Transition { device: id, from, to, reason, detail })
            } else {
                old(log)@
            }),
            match r {
                Ok(_) => old(self)@.lifecycle_objection(id, from, to) is None,
                Err(e) => old(self)@.lifecycle_objection(id, from, to) == Some(e),
            },
            final(self)@ == old(self)@.declared(id, from, to),
    {
        let ghost v = self@;
        let children: Vec<ObjectId> = self.machine.devices.children_of(id);
        let mut states: Vec<Option<DriverState>> = Vec::new();
        let mut i: usize = 0;
        while i < children.len()
            invariant
                self.wf(),
                self@ == v,
                i <= children@.len(),
                states@ == states_of(v.machine.lifecycle, children@.take(i as int)),
            decreases children@.len() - i,
        {
            states.push(self.machine.lifecycle.state_of(children[i]));
            assert(states@ =~= states_of(v.machine.lifecycle, children@.take(i + 1)));
            i += 1;
        }
        assert(children@.take(i as int) =~= children@);
        let above: Option<ObjectId> = self.machine.devices.parent_of(id);
        let above_state: Option<DriverState> = match above {
            Some(p) => self.machine.lifecycle.state_of(p),
            None => None,
        };
        match neighbours_permit(to, states.as_slice(), above_state) {
            Err(NeighbourBlock::Child { index, state }) => {
                proof {
                    slots::lemma_first(states@, crate::lifecycle::awake());
                }
                Err(TransitionError::OutOfOrder { neighbour: children[index], state })
            },
            Err(NeighbourBlock::Parent { state }) => {
                let neighbour: ObjectId = match above {
                    Some(p) => p,
                    None => id,
                };
                Err(TransitionError::OutOfOrder { neighbour, state })
            },
            Ok(_) => {
                let r = self.machine.lifecycle.declare(id, from, to);
                assert(self@ =~= v.with_lifecycle(self.machine.lifecycle@));
                assert(v.with_lifecycle(v.machine.lifecycle) =~= v);
                if r.is_ok() {
                    log.push(DeviceRecord::Transition { device: id, from, to, reason, detail });
                }
                r
            },
        }
    }

    /// Tells every service depending on `id` that it is in `state`, entered for
    /// the reason numbered `reason`. Returns how many were told and how many
    /// could not be. If there are any, what follows on `cpu` is attributed to the
    /// freshly minted `cause`, and so are the notices.
    pub fn notify_dependents(
        &mut self,
        cpu: u32,
        id: ObjectId,
        numbers: StateNumbers,
        state: DriverState,
        reason: u32,
        cause: u64,
    ) -> (r: (usize, usize))
        requires
            old(self).wf(),
        ensures
            final(self).wf(),
            ({
                let ends = dependents(old(self)@.machine.devices, id);
                let m = notice(id, numbers.codes(state, reason));
                let v = old(self)@.rerooted_if(ends.len() > 0, cpu, cause);
                &&& final(self)@ == v.sent_each(cpu, ends, m, cause)
                &&& r.0 == v.sent_count(cpu, ends, m, cause)
                &&& r.0 + r.1 == ends.len()
            }),
            r.0 + r.1 <= MAX_DEPENDENTS,
    {
        if self.machine.devices.dependents_of(id).len() > 0 {
            self.reroot(cpu, cause);
        }
        self.tell_dependents(cpu, id, numbers.numbered(state, reason), cause)
    }

    /// Tells every service depending on `id` what `codes` say of it.
    pub(crate) fn tell_dependents(
        &mut self,
        cpu: u32,
        id: ObjectId,
        codes: NoticeCodes,
        cause: u64,
    ) -> (r: (usize, usize))
        requires
            old(self).wf(),
        ensures
            final(self).wf(),
            ({
                let ends = dependents(old(self)@.machine.devices, id);
                let m = notice(id, codes);
                &&& final(self)@ == old(self)@.sent_each(cpu, ends, m, cause)
                &&& r.0 == old(self)@.sent_count(cpu, ends, m, cause)
                &&& r.0 + r.1 == ends.len()
            }),
            r.0 + r.1 <= MAX_DEPENDENTS,
    {
        let ghost v = self@;
        let ghost m = notice(id, codes);
        let ends: Vec<EndpointId> = self.machine.devices.dependents_of(id);
        let body: Vec<u8> = encode_notice(id, codes);
        let mut sent: usize = 0;
        let mut lost: usize = 0;
        let mut i: usize = 0;
        while i < ends.len()
            invariant
                self.wf(),
                i <= ends@.len(),
                ends@.len() <= MAX_DEPENDENTS,
                forall|k: int| 0 <= k < ends@.len() ==> (#[trigger] ends@[k]).side < 2,
                m == notice(id, codes),
                body@ == notice_body(id, codes),
                body@.len() <= MAX_INLINE_BYTES,
                self@ == v.sent_each(cpu, ends@.take(i as int), m, cause),
                sent == v.sent_count(cpu, ends@.take(i as int), m, cause),
                sent + lost == i,
            decreases ends@.len() - i,
        {
            let mut message: Message = Message::new(MessageHeader::new(0, 0));
            let _fits = message.set_inline(body.as_slice());
            assert(message@ =~= m);
            proof {
                assert(ends@.take(i + 1).drop_last() =~= ends@.take(i as int));
                assert(ends@.take(i + 1).last() == ends@[i as int]);
            }
            if self.send_for(cpu, ends[i], message, cause).is_err() {
                lost += 1;
            } else {
                sent += 1;
            }
            i += 1;
        }
        assert(ends@.take(i as int) =~= ends@);
        (sent, lost)
    }

    /// What resetting `id` comes to: nothing where policy declines, a refusal
    /// where nothing can reset, and otherwise an attempt whose outcome
    /// [`reset_outcome`] answers for.
    pub fn reset_device(&self, id: ObjectId, policy: ResetPolicy, resetter: bool) -> (r: ResetStep)
        requires
            self.wf(),
        ensures
            match r {
                ResetStep::Declined => policy == ResetPolicy::Never,
                ResetStep::Unsupported => policy != ResetPolicy::Never && !resetter,
                ResetStep::Attempt { identity, window } => {
                    &&& policy != ResetPolicy::Never
                    &&& resetter
                    &&& identity == match device(self@.machine.devices, id) {
                        Some(n) => n.resources.identity,
                        None => None,
                    }
                    &&& window == match device(self@.machine.devices, id) {
                        Some(n) => n.resources.window,
                        None => None,
                    }
                },
            },
    {
        if policy == ResetPolicy::Never {
            return ResetStep::Declined;
        }
        if !resetter {
            return ResetStep::Unsupported;
        }
        ResetStep::Attempt {
            identity: self.machine.devices.identity_of_object(id),
            window: self.machine.devices.mmio_of_object(id),
        }
    }
}

/// What a reset answers its caller: whether the device was reset, or why not.
/// `outcome` is what the hardware said, if it was asked.
pub fn reset_outcome(step: &ResetStep, outcome: Result<(), KError>) -> (r: Result<bool, KError>)
    ensures
        r == match *step {
            ResetStep::Declined => Ok::<bool, KError>(false),
            ResetStep::Unsupported => Err(KError::NotSupported),
            ResetStep::Attempt { identity, window } => match outcome {
                Ok(_) => Ok(true),
                Err(e) => Err(e),
            },
        },
{
    match step {
        ResetStep::Declined => Ok(false),
        ResetStep::Unsupported => Err(KError::NotSupported),
        ResetStep::Attempt { .. } => match outcome {
            Ok(_) => Ok(true),
            Err(e) => Err(e),
        },
    }
}

/// A number is written lowest byte first, so that it can be read back.
pub proof fn law_a_number_is_read_back_from_its_bytes(x: u32)
    ensures
        bytes_of(x).len() == 4,
        bytes_of(x)[0] + 256 * bytes_of(x)[1] + 65536 * bytes_of(x)[2] + 16777216 * bytes_of(x)[3]
            == x,
{
}

/// A notice says which device, what state it is in and why, each where a
/// dependent looks for it, after the notice's own size and version; it carries no
/// handle.
pub proof fn law_a_notice_says_which_device_and_why(device: ObjectId, codes: NoticeCodes)
    ensures
        notice(device, codes).handles.len() == 0,
        notice(device, codes).header.txn_id == 0,
        notice(device, codes).header.interface_id == 0,
        notice(device, codes).header.method_id == 0,
        ({
            let b = notice(device, codes).inline;
            &&& b.len() == SERVICE_NOTICE_SIZE
            &&& b[0] + 256 * b[1] + 65536 * b[2] + 16777216 * b[3] == SERVICE_NOTICE_SIZE
            &&& b[4] + 256 * b[5] + 65536 * b[6] + 16777216 * b[7] == SERVICE_NOTICE_VERSION
            &&& b[16] + 256 * b[17] + 65536 * b[18] + 16777216 * b[19] == device.0
            &&& b[20] + 256 * b[21] + 65536 * b[22] + 16777216 * b[23] == codes.state
            &&& b[24] + 256 * b[25] + 65536 * b[26] + 16777216 * b[27] == codes.reason
        }),
{
    law_a_number_is_read_back_from_its_bytes(SERVICE_NOTICE_SIZE as u32);
    law_a_number_is_read_back_from_its_bytes(SERVICE_NOTICE_VERSION);
    law_a_number_is_read_back_from_its_bytes(device.0);
    law_a_number_is_read_back_from_its_bytes(codes.state);
    law_a_number_is_read_back_from_its_bytes(codes.reason);
    let b = notice(device, codes).inline;
    let d = bytes_of(device.0);
    let s = bytes_of(codes.state);
    let r = bytes_of(codes.reason);
    assert(b[16] == d[0] && b[17] == d[1] && b[18] == d[2] && b[19] == d[3]);
    assert(b[20] == s[0] && b[21] == s[1] && b[22] == s[2] && b[23] == s[3]);
    assert(b[24] == r[0] && b[25] == r[1] && b[26] == r[2] && b[27] == r[3]);
}

/// Each state has the number that was given for it, and what is told is that
/// number with the reason.
pub proof fn law_each_state_has_its_number(n: StateNumbers, reason: u32, state: DriverState)
    ensures
        n.of(DriverState::Discovered) == n.discovered,
        n.of(DriverState::Matched) == n.matched,
        n.of(DriverState::Starting) == n.starting,
        n.of(DriverState::Probing) == n.probing,
        n.of(DriverState::Active) == n.active,
        n.of(DriverState::Suspending) == n.suspending,
        n.of(DriverState::Suspended) == n.suspended,
        n.of(DriverState::Resuming) == n.resuming,
        n.of(DriverState::Resetting) == n.resetting,
        n.of(DriverState::Degraded) == n.degraded,
        n.of(DriverState::Stopping) == n.stopping,
        n.of(DriverState::Removed) == n.removed,
        n.of(DriverState::Failed) == n.failed,
        n.codes(state, reason).state == n.of(state),
        n.codes(state, reason).reason == reason,
{
}

/// A notice goes to every dependent in turn, and is counted for each whose queue
/// takes it.
pub proof fn law_every_dependent_is_told(
    v: ExecView,
    cpu: u32,
    ends: Seq<EndpointId>,
    m: MessageView,
    cause: u64,
    t: crate::devmgr::DevicesView,
    id: ObjectId,
)
    requires
        ends.len() > 0,
    ensures
        v.sent_each(cpu, ends, m, cause) == v.sent_each(cpu, ends.drop_last(), m, cause).sent_for(
            cpu,
            ends.last(),
            m,
            cause,
        ),
        v.sent_count(cpu, ends, m, cause) == v.sent_count(cpu, ends.drop_last(), m, cause) + (
        if v.sent_each(cpu, ends.drop_last(), m, cause).send_result(ends.last()) is Ok {
            1nat
        } else {
            0nat
        }),
        v.sent_each(cpu, Seq::empty(), m, cause) == v,
        v.sent_count(cpu, Seq::empty(), m, cause) == 0,
        device(t, id) matches Some(n) ==> dependents(t, id) == n.dependents,
        device(t, id) is None ==> dependents(t, id).len() == 0,
{
}

/// A transition is checked against the device's own record and, where power is
/// concerned, against its neighbours': a child that is awake stops a suspend, and
/// a parent that is bound and not in service stops a resume. One that stands is
/// recorded, and nothing else changes.
pub proof fn law_a_transition_respects_its_neighbours(
    v: ExecView,
    id: ObjectId,
    from: DriverState,
    to: DriverState,
)
    requires
        crate::devmgr::devices_wf(v.machine.devices),
    ensures
        to == DriverState::Suspending && (exists|k: int|
            0 <= k < devices_where(v.machine.devices, behind(id)).len() && (recorded(
                v.machine.lifecycle,
                #[trigger] devices_where(v.machine.devices, behind(id))[k],
            ) matches Some(s) && crate::lifecycle::bound(s) && s != DriverState::Suspended))
            ==> v.lifecycle_objection(id, from, to) is Some,
        to == DriverState::Resuming && (parent(v.machine.devices, id) matches Some(p) && (recorded(
            v.machine.lifecycle,
            p,
        ) matches Some(s) && crate::lifecycle::bound(s) && s != DriverState::Active))
            ==> v.lifecycle_objection(id, from, to) is Some,
        to != DriverState::Suspending && to != DriverState::Resuming ==> v.lifecycle_objection(
            id,
            from,
            to,
        ) == objection(v.machine.lifecycle, id, from, to),
        v.lifecycle_objection(id, from, to) is None ==> {
            &&& objection(v.machine.lifecycle, id, from, to) is None
            &&& recorded(v.declared(id, from, to).machine.lifecycle, id) == Some(to)
            &&& crate::lifecycle::standing(v.machine.lifecycle, id) == from
        },
        v.lifecycle_objection(id, from, to) is Some ==> v.declared(id, from, to) == v,
        v.declared(id, from, to).cpus == v.cpus,
        v.declared(id, from, to).machine.devices == v.machine.devices,
{
    let children = devices_where(v.machine.devices, behind(id));
    let states = states_of(v.machine.lifecycle, children);
    let above = match parent(v.machine.devices, id) {
        Some(p) => recorded(v.machine.lifecycle, p),
        None => None,
    };
    slots::lemma_first(states, crate::lifecycle::awake());
    if exists|k: int|
        0 <= k < children.len() && (recorded(
            v.machine.lifecycle,
            #[trigger] children[k],
        ) matches Some(s) && crate::lifecycle::bound(s) && s != DriverState::Suspended) {
        let k = choose|k: int|
            0 <= k < children.len() && (recorded(
                v.machine.lifecycle,
                #[trigger] children[k],
            ) matches Some(s) && crate::lifecycle::bound(s) && s != DriverState::Suspended);
        assert(crate::lifecycle::awake()(states[k]));
    }
    if v.lifecycle_objection(id, from, to) is None {
        crate::lifecycle::law_record_is_a_sequence(v.machine.lifecycle, id, from, to);
    }
}

} // verus!
