//! Taking back the devices of a process that is going away.
use vstd::prelude::*;
use crate::devmgr::{
    any_device, device, device_slot, devices_where, leased_to, lemma_device_at, routed_to, DevicesView,
};
use crate::exec::devices::{lease_ends, lemma_all_routes_ended, lemma_leases_ended, lemma_listed};
use crate::exec::removal::kernel_header;
use crate::exec::records::{DeviceRecord, EndReason};
use crate::exec::{ExecView, Executive};
use crate::handle::{naming, reclaim_lists, reclaimed_upto, reported, HandleTableView, MAX_HANDLES};
use crate::hardware::{DmaMapper, InterruptRouter};
use crate::ipc::{EndpointId, Message, MessageHeader, MessageView, TransferredHandle};
use crate::object::ObjectId;
use crate::process::{Process, ProcessView};
use crate::rights::Rights;
use crate::slots;
use crate::space::Space;

verus! {

/// The message that hands `id` back: no payload, and the capability with the
/// authority the graph has over it.
pub open spec fn handback(id: ObjectId, rights: Rights) -> MessageView {
    MessageView {
        header: kernel_header(),
        inline: Seq::empty(),
        handles: seq![TransferredHandle { object: id, rights }],
    }
}

/// Whether `id` is handed back when its holder is gone: the graph knows it and
/// it is not in quarantine.
pub open spec fn offered(t: DevicesView, id: ObjectId) -> bool {
    device(t, id) matches Some(n) && !n.quarantined
}

/// Why a device could not be handed back.
#[derive(Clone, Copy, PartialEq, Eq, Debug, Structural)]
pub enum LostCause {
    /// The message had no room for a handle.
    NoHandleRoom,
    /// The queue it was sent to did not take it.
    QueueFull,
    /// The graph does not know it.
    NotInGraph,
}

impl LostCause {
    /// The cause's number, as it is reported.
    pub open spec fn number(self) -> u64 {
        match self {
            LostCause::NoHandleRoom => 1,
            LostCause::QueueFull => 2,
            LostCause::NotInGraph => 3,
        }
    }

    /// The cause's number, as it is reported.
    pub fn code(self) -> (n: u64)
        ensures
            n == self.number(),
    {
        match self {
            LostCause::NoHandleRoom => 1,
            LostCause::QueueFull => 2,
            LostCause::NotInGraph => 3,
        }
    }
}

/// What became of a device taken from a process that is going away.
#[derive(Clone, Copy, PartialEq, Eq, Debug, Structural)]
pub enum Handback {
    /// Handed back, with these rights.
    Sent { object: ObjectId, rights: Rights },
    /// Lost.
    Lost { object: ObjectId, cause: LostCause },
}

impl ExecView {
    /// What is reported of each device of `taken`, in order. A device withheld
    /// in quarantine is not.
    pub open spec fn handback_log(
        self,
        cpu: u32,
        to: EndpointId,
        taken: Seq<(ObjectId, Rights)>,
        cause: u64,
    ) -> Seq<Handback>
        decreases taken.len(),
    {
        if taken.len() == 0 {
            Seq::empty()
        } else {
            let before = self.handed_back(cpu, to, taken.drop_last(), cause);
            let log = self.handback_log(cpu, to, taken.drop_last(), cause);
            let object = taken.last().0;
            match device(before.machine.devices, object) {
                None => log.push(Handback::Lost { object, cause: LostCause::NotInGraph }),
                Some(n) => if n.quarantined {
                    log
                } else if before.send_result(to) is Ok {
                    log.push(Handback::Sent { object, rights: n.resources.rights })
                } else {
                    log.push(Handback::Lost { object, cause: LostCause::QueueFull })
                },
            }
        }
    }

    /// The executive after each device of `taken` that is offered is sent from
    /// `to`, in order, wherever there is room.
    pub open spec fn handed_back(
        self,
        cpu: u32,
        to: EndpointId,
        taken: Seq<(ObjectId, Rights)>,
        cause: u64,
    ) -> ExecView
        decreases taken.len(),
    {
        if taken.len() == 0 {
            self
        } else {
            let before = self.handed_back(cpu, to, taken.drop_last(), cause);
            let id = taken.last().0;
            if offered(before.machine.devices, id) {
                before.sent_for(
                    cpu,
                    to,
                    handback(id, device(before.machine.devices, id)->0.resources.rights),
                    cause,
                )
            } else {
                before
            }
        }
    }

    /// How many of them were sent.
    pub open spec fn handed_back_count(
        self,
        cpu: u32,
        to: EndpointId,
        taken: Seq<(ObjectId, Rights)>,
        cause: u64,
    ) -> nat
        decreases taken.len(),
    {
        if taken.len() == 0 {
            0
        } else {
            let before = self.handed_back(cpu, to, taken.drop_last(), cause);
            self.handed_back_count(cpu, to, taken.drop_last(), cause) + if offered(
                before.machine.devices,
                taken.last().0,
            ) && before.send_result(to) is Ok {
                1nat
            } else {
                0nat
            }
        }
    }

    /// Without the leases and then the routes of `holder`.
    pub open spec fn hardware_let_go(self, holder: ObjectId) -> ExecView {
        let a = self.leases_ended(devices_where(self.machine.devices, leased_to(holder)));
        a.all_routes_ended(devices_where(a.machine.devices, routed_to(holder)))
    }
}

/// The `k`-th object listed first occurs no earlier than slot `k`.
proof fn lemma_listed_late(
    before: HandleTableView,
    wanted: Seq<ObjectId>,
    out: Seq<(ObjectId, Rights)>,
    k: int,
)
    requires
        reclaim_lists(before, wanted, out),
        0 <= k < out.len(),
    ensures
        k <= slots::first(before.slots, naming(out[k].0)),
    decreases k,
{
    slots::lemma_first(before.slots, naming(out[k].0));
    if k > 0 {
        lemma_listed_late(before, wanted, out, k - 1);
        assert(slots::first(before.slots, naming(out[k - 1].0)) < slots::first(
            before.slots,
            naming(out[k].0),
        ));
    }
}

impl Executive {
    /// Hands every device `process` still holds to the far end of `to`, and
    /// returns how many were sent. Its leases and interrupt routes end first,
    /// whatever becomes of the capabilities. Each capability travels alone,
    /// with no payload and with the authority the graph has over the device; a
    /// quarantined device is taken and not handed back. What became of every
    /// other one is reported in `log`: a capability that could not be delivered
    /// is lost, and not in silence. The leases and routes that ended are reported
    /// in `records`. All of it, and what follows on `cpu`, is attributed to the
    /// freshly minted `cause`.
    pub fn reclaim_devices<S: Space, M: DmaMapper, R: InterruptRouter>(
        &mut self,
        cpu: u32,
        process: &mut Process<S>,
        to: EndpointId,
        iommu: &mut M,
        irqs: &mut R,
        log: &mut Vec<Handback>,
        records: &mut Vec<DeviceRecord>,
        cause: u64,
    ) -> (n: usize)
        requires
            old(self).wf(),
            old(process).wf(),
            to.side < 2,
        ensures
            final(self).wf(),
            final(process).wf(),
            final(iommu).present() == old(iommu).present(),
            final(irqs).present() == old(irqs).present(),
            ({
                let v = old(self)@.rerooted(cpu, cause);
                let id = old(process)@.id;
                let leases = devices_where(v.machine.devices, leased_to(id));
                let a = v.leases_ended(leases);
                let routed = devices_where(a.machine.devices, routed_to(id));
                &&& final(records)@ == old(records)@ + v.lease_log(leases, EndReason::HolderGone)
                    + a.route_log(routed, EndReason::HolderGone)
                &&& final(iommu).trace() == (if old(iommu).present() {
                    old(iommu).trace() + lease_ends(leases)
                } else {
                    old(iommu).trace()
                })
                &&& final(irqs).masked() == (if old(irqs).present() {
                    old(irqs).masked() + a.masks(routed)
                } else {
                    old(irqs).masked()
                })
            }),
            ({
                let v = old(self)@.rerooted(cpu, cause);
                let w = v.hardware_let_go(old(process)@.id);
                exists|taken: Seq<(ObjectId, Rights)>| #[trigger]
                    devices_taken(v, old(process)@, final(process)@, taken) && final(self)@
                        == w.handed_back(cpu, to, taken, cause) && n == w.handed_back_count(
                        cpu,
                        to,
                        taken,
                        cause,
                    ) && final(log)@ == old(log)@ + w.handback_log(cpu, to, taken, cause)
            }),
            forall|id: ObjectId|
                (#[trigger] device(old(self)@.machine.devices, id)) is Some
                    ==> !final(process)@.handles.holds(id),
    {
        let holder: ObjectId = process.id();
        let ghost p = process@;
        self.reroot(cpu, cause);
        let ghost start = self@;
        self.end_leases_of(holder, iommu, records);
        self.end_irq_routes_of(holder, irqs, records);
        let ghost v = self@;
        let devices: Vec<ObjectId> = self.machine.devices.objects();
        let taken: Vec<(ObjectId, Rights)> = process.handles_mut().reclaim(
            &devices,
            MAX_HANDLES + 1,
        );
        proof {
            assert(process@ =~= ProcessView { handles: process@.handles, ..p });
            if taken@.len() > MAX_HANDLES {
                lemma_listed_late(p.handles, devices@, taken@, MAX_HANDLES as int);
                assert(taken@[MAX_HANDLES as int] == taken@[MAX_HANDLES as int]);
            }
            let t = start.machine.devices;
            let leases = devices_where(t, leased_to(holder));
            lemma_leases_ended(start, leases);
            let a = start.leases_ended(leases);
            lemma_all_routes_ended(a, devices_where(a.machine.devices, routed_to(holder)));
            assert forall|id: ObjectId|
                (#[trigger] device(t, id)) is Some implies !process@.handles.holds(id) by {
                lemma_device_at(t, id);
                let at = device_slot(t, id);
                assert(a.machine.devices[at] is Some && v.machine.devices[at] is Some);
                lemma_listed(v.machine.devices, any_device(), at);
                assert(devices@.contains(id));
                if process@.handles.holds(id) {
                    let i = choose|i: int|
                        0 <= i < process@.handles.slots.len() && naming(id)(
                            #[trigger] process@.handles.slots[i],
                        );
                    assert(p.handles.slots[i] is Some);
                    assert(reported(taken@, p.handles.slots[i]->0.object));
                }
            }
        }
        let mut sent: usize = 0;
        let mut i: usize = 0;
        assert(log@ =~= old(log)@ + v.handback_log(cpu, to, taken@.take(0), cause));
        while i < taken.len()
            invariant
                self.wf(),
                to.side < 2,
                i <= taken@.len(),
                sent <= i,
                self@ == v.handed_back(cpu, to, taken@.take(i as int), cause),
                sent == v.handed_back_count(cpu, to, taken@.take(i as int), cause),
                log@ == old(log)@ + v.handback_log(cpu, to, taken@.take(i as int), cause),
            decreases taken@.len() - i,
        {
            let id: ObjectId = taken[i].0;
            proof {
                assert(taken@.take(i + 1).drop_last() =~= taken@.take(i as int));
                assert(taken@.take(i + 1).last() == taken@[i as int]);
            }
            if !self.machine.devices.is_quarantined(id) {
                match self.machine.devices.rights_of_object(id) {
                    None => {
                        log.push(Handback::Lost { object: id, cause: LostCause::NotInGraph });
                    },
                    Some(rights) => {
                        let mut message: Message = Message::new(MessageHeader::new(0, 0));
                        let room = message.add_handle(TransferredHandle { object: id, rights });
                        if room.is_err() {
                            log.push(
                                Handback::Lost { object: id, cause: LostCause::NoHandleRoom },
                            );
                        } else if self.send_for(cpu, to, message, cause).is_ok() {
                            assert(message@ =~= handback(id, rights));
                            sent += 1;
                            log.push(Handback::Sent { object: id, rights });
                        } else {
                            assert(message@ =~= handback(id, rights));
                            log.push(Handback::Lost { object: id, cause: LostCause::QueueFull });
                        }
                    },
                }
            }
            assert(log@ =~= old(log)@ + v.handback_log(cpu, to, taken@.take(i + 1), cause));
            i += 1;
        }
        proof {
            assert(taken@.take(i as int) =~= taken@);
            assert(devices_taken(start, p, process@, taken@));
        }
        sent
    }
}

/// What a process loses: every handle to a device of the graph, each device
/// listed once in `taken`.
pub open spec fn devices_taken<S: Space>(
    v: ExecView,
    p: ProcessView<S>,
    q: ProcessView<S>,
    taken: Seq<(ObjectId, Rights)>,
) -> bool {
    let devices = devices_where(v.hardware_let_go(p.id).machine.devices, any_device());
    &&& reclaim_lists(p.handles, devices, taken)
    &&& q == (ProcessView {
        handles: reclaimed_upto(p.handles, taken, MAX_HANDLES as int),
        ..p
    })
    &&& forall|i: int|
        0 <= i < MAX_HANDLES && (#[trigger] p.handles.slots[i]) is Some && devices.contains(
            p.handles.slots[i]->0.object,
        ) ==> reported(taken, p.handles.slots[i]->0.object)
}

/// A device is handed back as a message that carries one handle and nothing
/// else: the device, with the rights the graph has for it.
pub proof fn law_a_device_is_handed_back_with_its_rights(id: ObjectId, rights: Rights)
    ensures
        handback(id, rights).handles.len() == 1,
        handback(id, rights).handles[0].object == id,
        handback(id, rights).handles[0].rights == rights,
        handback(id, rights).inline.len() == 0,
        handback(id, rights).header.interface_id == 0,
        handback(id, rights).header.method_id == 0,
        handback(id, rights).header.txn_id == 0,
        LostCause::NoHandleRoom.number() == 1,
        LostCause::QueueFull.number() == 2,
        LostCause::NotInGraph.number() == 3,
{
}

/// Every device that is taken is offered or told of: one in quarantine is
/// neither, one that the graph does not have is lost, one for which the queue has
/// no room is lost, and any other is sent with the rights the graph has for it.
pub proof fn law_a_taken_device_is_offered_or_told(
    v: ExecView,
    cpu: u32,
    to: EndpointId,
    taken: Seq<(ObjectId, Rights)>,
    cause: u64,
)
    requires
        taken.len() > 0,
    ensures
        ({
            let id = taken.last().0;
            let fewer = taken.drop_last();
            let a = v.handed_back(cpu, to, fewer, cause);
            let b = v.handed_back(cpu, to, taken, cause);
            let earlier = v.handback_log(cpu, to, fewer, cause);
            let told = v.handback_log(cpu, to, taken, cause);
            let before = v.handed_back_count(cpu, to, fewer, cause);
            let n = v.handed_back_count(cpu, to, taken, cause);
            match device(a.machine.devices, id) {
                None => {
                    &&& b == a && n == before
                    &&& told == earlier.push(
                        Handback::Lost { object: id, cause: LostCause::NotInGraph },
                    )
                },
                Some(d) => {
                    &&& d.quarantined ==> b == a && n == before && told == earlier
                    &&& !d.quarantined ==> b == a.sent_for(
                        cpu,
                        to,
                        handback(id, d.resources.rights),
                        cause,
                    )
                    &&& !d.quarantined && a.send_result(to) is Ok ==> n == before + 1 && told
                        == earlier.push(
                        Handback::Sent { object: id, rights: d.resources.rights },
                    )
                    &&& !d.quarantined && a.send_result(to) is Err ==> n == before && told
                        == earlier.push(
                        Handback::Lost { object: id, cause: LostCause::QueueFull },
                    )
                },
            }
        }),
        v.handed_back(cpu, to, Seq::empty(), cause) == v,
        v.handed_back_count(cpu, to, Seq::empty(), cause) == 0,
        v.handback_log(cpu, to, Seq::empty(), cause).len() == 0,
{
}

/// Once a holder's hardware is let go of, no device is leased to it and none
/// interrupts it; no other holder loses a lease.
pub proof fn law_nothing_serves_a_departed_holder(v: ExecView, holder: ObjectId, i: int)
    requires
        crate::devmgr::devices_wf(v.machine.devices),
        0 <= i < crate::config::MAX_DEVICES,
        v.machine.devices[i] is Some,
    ensures
        v.hardware_let_go(holder).machine.devices[i] matches Some(m) && {
            let n = v.machine.devices[i]->0;
            &&& m.object == n.object && m.resources == n.resources && m.parent == n.parent
            &&& m.lease matches Some(l) ==> l.holder != holder
            &&& forall|k: int| 0 <= k < m.routes.len() ==> (#[trigger] m.routes[k]).holder != holder
            &&& n.lease matches Some(l) ==> (l.holder != holder ==> m.lease == Some(l))
            &&& (forall|k: int|
                0 <= k < n.routes.len() ==> (#[trigger] n.routes[k]).holder != holder) ==> m.routes
                == n.routes
        },
{
    let t = v.machine.devices;
    let leases = devices_where(t, leased_to(holder));
    crate::exec::devices::lemma_leases_ended(v, leases);
    let a = v.leases_ended(leases);
    let u = a.machine.devices;
    let routed = devices_where(u, routed_to(holder));
    crate::exec::devices::lemma_all_routes_ended(a, routed);
    let n = t[i]->0;
    assert(u[i] is Some);
    crate::devmgr::law_devices_are_listed_exactly(t, holder, 0, n.object, i);
    crate::devmgr::law_devices_are_listed_exactly(u, holder, 0, n.object, i);
    assert(u[i]->0.routes == n.routes);
}

/// What a process loses with its devices: every handle to a device of the graph,
/// and no other handle.
pub proof fn law_only_device_handles_are_taken<S: Space>(
    v: ExecView,
    p: ProcessView<S>,
    q: ProcessView<S>,
    taken: Seq<(ObjectId, Rights)>,
    i: int,
)
    requires
        p.handles.wf(),
        crate::devmgr::devices_wf(v.machine.devices),
        devices_taken(v, p, q, taken),
        0 <= i < MAX_HANDLES,
        p.handles.slots[i] is Some,
    ensures
        q.id == p.id && q.threads == p.threads && q.state == p.state && q.space == p.space,
        devices_where(v.hardware_let_go(p.id).machine.devices, any_device()).contains(
            p.handles.slots[i]->0.object,
        ) ==> q.handles.slots[i] is None,
        !devices_where(v.hardware_let_go(p.id).machine.devices, any_device()).contains(
            p.handles.slots[i]->0.object,
        ) ==> q.handles.slots[i] == p.handles.slots[i],
{
    crate::handle::law_reclaiming_takes_what_it_reports(p.handles, taken, MAX_HANDLES as int, i);
    let devices = devices_where(v.hardware_let_go(p.id).machine.devices, any_device());
    let object = p.handles.slots[i]->0.object;
    if !devices.contains(object) {
        assert forall|k: int| 0 <= k < taken.len() implies (#[trigger] taken[k]).0 != object by {
            assert(devices.contains(taken[k].0));
        }
    }
}

} // verus!
