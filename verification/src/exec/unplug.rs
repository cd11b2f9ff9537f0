//! Devices pulled out of the machine. A bus controller does not leave alone:
//! everything behind it goes with it, leaves first, and from every holder.
use vstd::prelude::*;
use crate::config::{MAX_CPUS, MAX_DEPENDENTS, MAX_DEVICES, MAX_PORTS};
use crate::devmgr::{
    above, behind, device, device_slot, devices_where, devices_wf, first_route, lease_holder,
    lemma_chain_short, lemma_chain_split, lemma_device_at, lemma_found, parent, sits_below,
    DeviceView, DevicesView,
};
use crate::error::KError;
use crate::exec::devices::{forgotten, lemma_listed, lemma_same_shape, lines, routes_of, same_shape};
use crate::exec::ports::lemma_signalled_frame;
use crate::exec::records::{lease_record, route_records, DeviceRecord, EndReason};
use crate::exec::removal::{dependents, lemma_sent_each_frame, notice, NoticeCodes, StateNumbers};
use crate::exec::{ExecView, Executive, IRQ_PORT_SIGNAL_REMOVED};
use crate::handle::{naming, reclaimed_upto, reported, HandleTableView, MAX_HANDLES};
use crate::hardware::{DmaMapper, DmaOp, InterruptRouter};
use crate::lifecycle::{entry_of, moved, recorded, standing, DriverState};
use crate::object::ObjectId;
use crate::port::{port_at, Binding};
use crate::process::{
    chosen, swept, unmaps, window_on, window_records, DeviceWindow, Process, ProcessTable, ProcessView,
    WindowRevokeReason, WindowRevoked, MAX_PROCESSES,
};
use crate::rights::Rights;
use crate::slots;
use crate::space::{Space, SpaceOp};

verus! {

/// What unmappings came to, in order.
pub type Outcomes = Seq<Option<KError>>;

/// What a removal did.
#[derive(Clone, Copy, PartialEq, Eq, Debug, Structural)]
pub struct RemovalReport {
    /// Whether the graph knew the device. Removing it twice is no error.
    pub existed: bool,
    /// How many times a process was holding a handle to a removed device.
    pub holders: usize,
    /// How many of those lost their register windows.
    pub windows: usize,
    /// Services depending on a removed device that were told it had gone.
    pub dependents_told: usize,
    /// Services that could not be told.
    pub dependents_missed: usize,
    /// Ports told that a line will never assert again.
    pub woken: usize,
    /// How many devices went: the one named and everything behind it.
    pub subtree: usize,
}

/// What a process holds of devices: its handles, its register windows, what its
/// address space was asked, and what unmapping registers there came to.
#[verifier::ext_equal]
pub struct HoldView {
    pub handles: HandleTableView,
    pub windows: Seq<Option<DeviceWindow>>,
    pub trace: Seq<SpaceOp>,
    pub unmapped: Outcomes,
}

/// What `p` holds of devices.
pub open spec fn hold<S: Space>(p: ProcessView<S>) -> HoldView {
    HoldView {
        handles: p.handles,
        windows: p.device_windows,
        trace: p.space.trace(),
        unmapped: p.space.unmapped(),
    }
}

/// The handle table without any handle to `id`.
pub open spec fn struck(h: HandleTableView, id: ObjectId) -> HandleTableView {
    reclaimed_upto(h, seq![(id, Rights(0))], MAX_HANDLES as int)
}

impl HoldView {
    /// Without `id`: every handle to it gone, and every window on it unmapped,
    /// which came to `out`.
    pub open spec fn stripped(self, id: ObjectId, out: Outcomes) -> HoldView {
        let lost = chosen(self.windows, window_on(id));
        if self.handles.holds(id) {
            HoldView {
                handles: struck(self.handles, id),
                windows: swept(self.windows, window_on(id)),
                trace: self.trace + unmaps(lost),
                unmapped: self.unmapped + Seq::new(lost.len(), |i: int| out[i]),
            }
        } else {
            self
        }
    }
}

/// What is reported of the windows a process loses with `id`, whose unmapping
/// came to `out`.
pub open spec fn lost_by(h: Option<HoldView>, id: ObjectId, out: Outcomes) -> Seq<WindowRevoked> {
    match h {
        Some(p) => if p.handles.holds(id) {
            window_records(
                chosen(p.windows, window_on(id)),
                id,
                WindowRevokeReason::Removed,
                out,
            )
        } else {
            Seq::empty()
        },
        None => Seq::empty(),
    }
}

/// What is reported of the windows all processes lose with `id`, in table order.
pub open spec fn lost_by_all(h: Seq<Option<HoldView>>, id: ObjectId, outs: Seq<Outcomes>) -> Seq<
    WindowRevoked,
>
    decreases h.len(),
{
    if h.len() == 0 {
        Seq::empty()
    } else {
        lost_by_all(h.drop_last(), id, outs.drop_last()) + lost_by(h.last(), id, outs.last())
    }
}

/// What every process holds of devices.
pub open spec fn holds_of<S: Space>(t: Seq<Option<ProcessView<S>>>) -> Seq<Option<HoldView>> {
    Seq::new(
        t.len(),
        |i: int|
            match t[i] {
                Some(p) => Some(hold(p)),
                None => None,
            },
    )
}

/// What every process holds once nobody holds `id`, where unmapping the windows
/// of each came to `outs`.
pub open spec fn all_stripped(h: Seq<Option<HoldView>>, id: ObjectId, outs: Seq<Outcomes>) -> Seq<
    Option<HoldView>,
> {
    Seq::new(
        h.len(),
        |i: int|
            match h[i] {
                Some(p) => Some(p.stripped(id, outs[i])),
                None => None,
            },
    )
}

/// The predicate of a process that holds `id`.
pub open spec fn holding(id: ObjectId) -> spec_fn(Option<HoldView>) -> bool {
    |o: Option<HoldView>| o matches Some(p) && p.handles.holds(id)
}

/// Whether two process tables differ only in what processes hold of devices.
pub open spec fn only_holds_differ<S: Space>(
    t: Seq<Option<ProcessView<S>>>,
    u: Seq<Option<ProcessView<S>>>,
) -> bool {
    &&& t.len() == u.len()
    &&& forall|i: int| 0 <= i < t.len() ==> only_hold_differs(t[i], #[trigger] u[i])
}

pub open spec fn only_hold_differs<S: Space>(
    p: Option<ProcessView<S>>,
    q: Option<ProcessView<S>>,
) -> bool {
    match p {
        Some(p) => q matches Some(q) && q == (ProcessView {
            handles: q.handles,
            device_windows: q.device_windows,
            space: q.space,
            ..p
        }),
        None => q is None,
    }
}

impl ExecView {
    /// With the routes of `id` ended, and whoever waits on the port of its
    /// first line told that it will never assert again.
    pub open spec fn line_removed(self, cpu: u32, id: ObjectId) -> ExecView {
        match first_route(self.machine.devices, id) {
            None => self,
            Some(r) => {
                let e = self.routes_ended(id);
                if self.line_bindable(id) {
                    e.with_port(
                        r.port,
                        port_at(e.machine.ports, r.port)->0.with_binding(
                            r.intid as u64,
                            IRQ_PORT_SIGNAL_REMOVED,
                        ),
                    ).signalled(cpu, r.intid as u64, IRQ_PORT_SIGNAL_REMOVED, 1)
                } else {
                    e
                }
            },
        }
    }

    /// Whether the port of the first line of `id`, which has one, can be bound
    /// to its removal.
    pub open spec fn line_bindable(self, id: ObjectId) -> bool {
        let r = first_route(self.machine.devices, id)->0;
        port_at(self.routes_ended(id).machine.ports, r.port) matches Some(p) && !p.listens(
            r.intid as u64,
            IRQ_PORT_SIGNAL_REMOVED,
        ) && p.vacancy() < p.bindings.len()
    }

    /// How many ports that tells.
    pub open spec fn line_listeners(self, id: ObjectId) -> nat {
        match first_route(self.machine.devices, id) {
            None => 0,
            Some(r) => {
                let e = self.routes_ended(id);
                if self.line_bindable(id) {
                    e.with_port(
                        r.port,
                        port_at(e.machine.ports, r.port)->0.with_binding(
                            r.intid as u64,
                            IRQ_PORT_SIGNAL_REMOVED,
                        ),
                    ).listeners(r.intid as u64, IRQ_PORT_SIGNAL_REMOVED)
                } else {
                    0
                }
            },
        }
    }

    /// With everything that lived on `id` ended.
    pub open spec fn quiesced(self, cpu: u32, id: ObjectId) -> ExecView {
        let b = self.lease_ended(id).line_removed(cpu, id);
        b.with_memory(forgotten(b.machine.memory, id))
    }

    /// What is reported of the transition that closes the lifecycle of `id`.
    pub open spec fn removal_record(self, id: ObjectId, from: DriverState, reason: u32) -> Seq<
        DeviceRecord,
    > {
        if self.lifecycle_objection(id, from, DriverState::Removed) is None {
            seq![
                DeviceRecord::Transition {
                    device: id,
                    from,
                    to: DriverState::Removed,
                    reason,
                    detail: 0,
                },
            ]
        } else {
            Seq::empty()
        }
    }

    /// Without the node of `id`.
    pub open spec fn without_node(self, id: ObjectId) -> ExecView {
        let t = self.machine.devices;
        if device(t, id) is Some {
            self.with_devices(t.update(device_slot(t, id), None))
        } else {
            self
        }
    }
}

/// How a removal is carried out: on which CPU, what dependents are told, under
/// which cause, and which hardware there is.
#[derive(Clone, Copy, PartialEq, Eq, Debug, Structural)]
pub struct RemovalSetting {
    pub cpu: u32,
    pub codes: NoticeCodes,
    pub cause: u64,
    pub iommu: bool,
    pub irqs: bool,
}

/// What a removal changes, and what it counts.
#[verifier::ext_equal]
pub struct RemovalView {
    pub state: ExecView,
    pub holds: Seq<Option<HoldView>>,
    pub dma: Seq<DmaOp>,
    pub masked: Seq<u32>,
    /// What is reported of the windows taken down.
    pub windows: Seq<WindowRevoked>,
    /// What is reported of the devices.
    pub records: Seq<DeviceRecord>,
    pub holders: nat,
    pub told: nat,
    pub missed: nat,
    pub woken: nat,
}

impl RemovalView {
    /// After one device is removed: what lived on it ends, every holder loses
    /// it, its dependents are told, its lifecycle closes, and the graph forgets
    /// it. Unmapping the windows of each process came to `outs`.
    pub open spec fn unplugged(
        self,
        how: RemovalSetting,
        id: ObjectId,
        outs: Seq<Outcomes>,
    ) -> RemovalView {
        let v = self.state.rerooted(how.cpu, how.cause);
        let leased = lease_holder(v.machine.devices, id) is Some;
        let a = v.lease_ended(id);
        let c = v.quiesced(how.cpu, id);
        let ends = dependents(c.machine.devices, id);
        let m = notice(id, how.codes);
        let d = c.sent_each(how.cpu, ends, m, how.cause);
        let told = c.sent_count(how.cpu, ends, m, how.cause);
        let from = standing(d.machine.lifecycle, id);
        RemovalView {
            state: d.declared(id, from, DriverState::Removed).without_node(id),
            holds: all_stripped(self.holds, id, outs),
            dma: if leased && how.iommu {
                self.dma.push(DmaOp::EndLease(id))
            } else {
                self.dma
            },
            masked: if how.irqs {
                self.masked + lines(routes_of(a.machine.devices, id))
            } else {
                self.masked
            },
            windows: self.windows + lost_by_all(self.holds, id, outs),
            records: self.records + lease_record(v.machine.devices, id, EndReason::Removed)
                + route_records(
                routes_of(a.machine.devices, id),
                id,
                EndReason::Removed,
            ) + d.removal_record(id, from, how.codes.reason) + seq![
                DeviceRecord::Removed {
                    device: id,
                    holders: slots::count(self.holds, holding(id)) as u64,
                    windows: slots::count(self.holds, holding(id)) as u64,
                    dependents: ends.len() as u64,
                },
            ],
            holders: self.holders + slots::count(self.holds, holding(id)),
            told: self.told + told,
            missed: (self.missed + ends.len() - told) as nat,
            woken: self.woken + a.line_listeners(id),
        }
    }

    /// After the devices of `ids` are removed, in order, where `steps` is what
    /// unmapping came to for each of them.
    pub open spec fn all_unplugged(
        self,
        how: RemovalSetting,
        ids: Seq<ObjectId>,
        steps: Seq<Seq<Outcomes>>,
    ) -> RemovalView
        decreases ids.len(),
    {
        if ids.len() == 0 {
            self
        } else {
            self.all_unplugged(how, ids.drop_last(), steps.drop_last()).unplugged(
                how,
                ids.last(),
                steps.last(),
            )
        }
    }
}

/// The device reached from `at` by going to the first device directly behind it,
/// up to `n` times, while there is one.
pub open spec fn descent(t: DevicesView, at: ObjectId, n: nat) -> ObjectId
    decreases n,
{
    let children = devices_where(t, behind(at));
    if n == 0 || children.len() == 0 {
        at
    } else {
        descent(t, children[0], (n - 1) as nat)
    }
}

/// The leaf reached from `root` by first devices. No chain is longer than the
/// graph is large.
pub open spec fn first_leaf(t: DevicesView, root: ObjectId) -> ObjectId {
    descent(t, root, (MAX_DEVICES + 1) as nat)
}

/// The graph without the devices of `gone`.
pub open spec fn left_of(t: DevicesView, gone: Seq<ObjectId>) -> DevicesView {
    Seq::new(
        t.len(),
        |i: int|
            if t[i] is Some && gone.contains(t[i]->0.object) {
                None
            } else {
                t[i]
            },
    )
}

/// Whether `order` is everything at or below `root`, each device after
/// everything behind it: each is the first leaf of what is left before it.
pub open spec fn leaves_first(t: DevicesView, root: ObjectId, order: Seq<ObjectId>) -> bool {
    &&& order.no_duplicates()
    &&& forall|id: ObjectId| #[trigger]
        order.contains(id) <==> device(t, id) is Some && sits_below(t, id, root)
    &&& forall|i: int, j: int|
        0 <= i < j < order.len() ==> !#[trigger] sits_below(t, order[j], order[i])
    &&& forall|k: int|
        0 <= k < order.len() ==> #[trigger] order[k] == first_leaf(
            left_of(t, order.take(k)),
            root,
        )
}

/// Ending what lives on a device neither adds, moves nor removes one.
proof fn lemma_quiesced(v: ExecView, cpu: u32, id: ObjectId)
    requires
        v.cpus.len() == MAX_CPUS,
        devices_wf(v.machine.devices),
    ensures
        ({
            let t = v.machine.devices;
            let x = v.quiesced(cpu, id).machine.devices;
            &&& v.quiesced(cpu, id).cpus.len() == MAX_CPUS
            &&& same_shape(t, x)
            &&& device_slot(x, id) == device_slot(t, id)
            &&& device(x, id) is Some == device(t, id) is Some
            &&& device(t, id) is Some ==> x.update(device_slot(t, id), None) == t.update(
                device_slot(t, id),
                None,
            )
        }),
{
    let t = v.machine.devices;
    let i = device_slot(t, id);
    slots::lemma_first(t, crate::devmgr::node_of(id));
    if device(t, id) is Some {
        lemma_device_at(t, id);
    }
    let a = v.lease_ended(id);
    let u = a.machine.devices;
    assert(same_shape(t, u));
    lemma_same_shape(t, u);
    let e = a.routes_ended(id);
    let w = e.machine.devices;
    if device(t, id) is Some {
        assert(u[i] is Some);
        assert(device(u, id) == u[i]);
        lemma_device_at(u, id);
        assert(u =~= t.update(i, u[i]));
        assert(w =~= t.update(i, w[i]));
        assert(u.update(i, None) =~= t.update(i, None));
        assert(w.update(i, None) =~= t.update(i, None));
    }
    assert(same_shape(t, w));
    lemma_same_shape(t, w);
    if let Some(r) = first_route(u, id) {
        if a.line_bindable(id) {
            let p = port_at(e.machine.ports, r.port)->0.with_binding(
                r.intid as u64,
                IRQ_PORT_SIGNAL_REMOVED,
            );
            lemma_signalled_frame(
                e.with_port(r.port, p),
                cpu,
                r.intid as u64,
                IRQ_PORT_SIGNAL_REMOVED,
                1,
            );
        }
    }
    let x = v.quiesced(cpu, id).machine.devices;
    assert(x == u || x == w);
    if device(t, id) is Some {
        assert(x[i] is Some);
    }
}

/// Removing one device changes the graph in its own place only.
proof fn lemma_unplugged_graph(
    s: RemovalView,
    how: RemovalSetting,
    id: ObjectId,
    outs: Seq<Outcomes>,
)
    requires
        s.state.cpus.len() == MAX_CPUS,
        devices_wf(s.state.machine.devices),
        device(s.state.machine.devices, id) is Some,
    ensures
        s.unplugged(how, id, outs).state.cpus.len() == MAX_CPUS,
        s.unplugged(how, id, outs).state.machine.devices == s.state.machine.devices.update(
            device_slot(s.state.machine.devices, id),
            None,
        ),
{
    let v = s.state.rerooted(how.cpu, how.cause);
    let c = v.quiesced(how.cpu, id);
    lemma_quiesced(v, how.cpu, id);
    lemma_sent_each_frame(
        c,
        how.cpu,
        dependents(c.machine.devices, id),
        notice(id, how.codes),
        how.cause,
    );
}

/// What unmapping registers between `p` and `q` came to.
pub open spec fn gained<S: Space>(p: ProcessView<S>, q: ProcessView<S>) -> Outcomes {
    q.space.unmapped().skip(p.space.unmapped().len() as int)
}

impl<S: Space> Process<S> {
    /// Takes every handle to `id` and every window on it. Returns whether there
    /// was a handle.
    fn lose_device(&mut self, id: ObjectId, log: &mut Vec<WindowRevoked>) -> (held: bool)
        requires
            old(self).wf(),
        ensures
            final(self).wf(),
            held == old(self)@.handles.holds(id),
            final(log)@ == old(log)@ + lost_by(
                Some(hold(old(self)@)),
                id,
                gained(old(self)@, final(self)@),
            ),
            hold(final(self)@) == hold(old(self)@).stripped(
                id,
                gained(old(self)@, final(self)@),
            ),
            only_hold_differs(Some(old(self)@), Some(final(self)@)),
    {
        let ghost p = self@;
        let wanted: Vec<ObjectId> = vec![id];
        let taken = self.handles_mut().reclaim(&wanted, 1);
        let ghost h = self@.handles;
        proof {
            assert(wanted@[0] == id);
            assert(h =~= reclaimed_upto(p.handles, taken@, MAX_HANDLES as int));
            if taken@.len() == 0 {
                assert forall|i: int| 0 <= i < MAX_HANDLES implies !naming(id)(
                    #[trigger] p.handles.slots[i],
                ) by {
                    if naming(id)(p.handles.slots[i]) {
                        assert(reported(taken@, p.handles.slots[i]->0.object));
                    }
                }
                assert(h =~= p.handles);
            } else {
                assert(wanted@.contains(taken@[0].0));
                assert(taken@[0].0 == id);
                let one = seq![(id, Rights(0))];
                assert forall|o: ObjectId| reported(taken@, o) == reported(one, o) by {
                    assert(taken@[0].0 == id && one[0].0 == id);
                }
                assert(h =~= struck(p.handles, id));
                let at = slots::first(p.handles.slots, naming(id));
                slots::lemma_first(p.handles.slots, naming(id));
                assert(naming(id)(p.handles.slots[at]));
                assert(p.handles.holds(id));
                assert(!h.holds(id)) by {
                    if h.holds(id) {
                        let i = choose|i: int|
                            0 <= i < h.slots.len() && naming(id)(#[trigger] h.slots[i]);
                        assert(reported(one, id)) by {
                            assert(one[0].0 == id);
                        }
                    }
                }
            }
        }
        if taken.len() == 0 {
            assert(log@ =~= old(log)@ + lost_by(Some(hold(p)), id, gained(p, self@)));
            return false;
        }
        self.revoke_device_windows_unless_held(id, WindowRevokeReason::Removed, log);
        assert(log@ =~= old(log)@ + lost_by(Some(hold(p)), id, gained(p, self@)));
        assert(hold(self@) =~= hold(p).stripped(id, gained(p, self@)));
        true
    }
}

/// Takes `id` from every process. Returns how many held it.
fn take_from_all<S: Space>(
    processes: &mut ProcessTable<S>,
    id: ObjectId,
    log: &mut Vec<WindowRevoked>,
) -> (n: usize)
    requires
        old(processes).wf(),
    ensures
        final(processes).wf(),
        n == slots::count(holds_of(old(processes)@), holding(id)),
        n <= MAX_PROCESSES,
        exists|outs: Seq<Outcomes>|
            final(log)@ == old(log)@ + #[trigger] lost_by_all(
                holds_of(old(processes)@),
                id,
                outs,
            ) && holds_of(final(processes)@) == all_stripped(
                holds_of(old(processes)@),
                id,
                outs,
            ),
        only_holds_differ(old(processes)@, final(processes)@),
{
    let ghost t = processes@;
    let ghost h = holds_of(t);
    let mut n: usize = 0;
    let mut i: usize = 0;
    assert(h.take(0) =~= Seq::empty());
    let ghost mut outs: Seq<Outcomes> = Seq::empty();
    assert(log@ =~= old(log)@ + lost_by_all(h.take(0), id, outs));
    while i < MAX_PROCESSES
        invariant
            processes.wf(),
            t == old(processes)@,
            t.len() == MAX_PROCESSES,
            processes@.len() == MAX_PROCESSES,
            h == holds_of(t),
            i <= MAX_PROCESSES,
            n <= i,
            n == slots::count(h.take(i as int), holding(id)),
            outs.len() == i,
            log@ == old(log)@ + lost_by_all(h.take(i as int), id, outs),
            forall|k: int|
                0 <= k < MAX_PROCESSES ==> if k < i {
                    &&& only_hold_differs(t[k], #[trigger] processes@[k])
                    &&& holds_of(processes@)[k] == all_stripped(h, id, outs)[k]
                } else {
                    processes@[k] == t[k]
                },
        decreases MAX_PROCESSES - i,
    {
        proof {
            slots::lemma_count_take(h, holding(id), i as int);
        }
        let ghost u = processes@;
        if let Some(p) = processes.get_mut(i) {
            if p.lose_device(id, log) {
                n += 1;
            }
        }
        proof {
            assert(h.take(i + 1).drop_last() =~= h.take(i as int));
            assert(h.take(i + 1).last() == h[i as int]);
            let was = outs;
            outs = outs.push(
                match (t[i as int], processes@[i as int]) {
                    (Some(p), Some(q)) => gained(p, q),
                    _ => Seq::empty(),
                },
            );
            assert(outs.drop_last() =~= was);
            assert(log@ =~= old(log)@ + lost_by_all(h.take(i + 1), id, outs));
        }
        assert forall|k: int| 0 <= k < MAX_PROCESSES implies if k < i + 1 {
            &&& only_hold_differs(t[k], #[trigger] processes@[k])
            &&& holds_of(processes@)[k] == all_stripped(h, id, outs)[k]
        } else {
            processes@[k] == t[k]
        } by {
            if k < i {
                assert(processes@[k] == u[k]);
                assert(holds_of(u)[k] == all_stripped(h, id, outs.drop_last())[k]);
            }
        }
        i += 1;
    }
    proof {
        assert(h.take(i as int) =~= h);
        assert(holds_of(processes@) =~= all_stripped(h, id, outs)) by {
            assert forall|k: int| 0 <= k < MAX_PROCESSES implies holds_of(processes@)[k]
                == all_stripped(h, id, outs)[k] by {
                assert(only_hold_differs(t[k], processes@[k]));
            }
        }
    }
    n
}

/// Whether `u` is `t` without the devices of `gone`, none of which anything
/// left sits directly behind.
pub open spec fn thinned(t: DevicesView, u: DevicesView, gone: Seq<ObjectId>) -> bool {
    &&& t.len() == u.len()
    &&& forall|i: int|
        0 <= i < t.len() ==> #[trigger] u[i] == (if t[i] is Some && gone.contains(t[i]->0.object) {
            None
        } else {
            t[i]
        })
    &&& forall|i: int|
        0 <= i < t.len() && (#[trigger] u[i]) is Some && u[i]->0.parent is Some ==> !gone.contains(
            u[i]->0.parent->0,
        )
}

/// What is left of a thinned graph is where it was.
proof fn lemma_thinned(t: DevicesView, u: DevicesView, gone: Seq<ObjectId>, id: ObjectId)
    requires
        devices_wf(t),
        devices_wf(u),
        thinned(t, u, gone),
    ensures
        device(u, id) == (if gone.contains(id) {
            None
        } else {
            device(t, id)
        }),
        device(u, id) is Some ==> device_slot(u, id) == device_slot(t, id),
{
    if device(u, id) is Some {
        lemma_device_at(u, id);
        let k = device_slot(u, id);
        assert(u[k] == t[k]);
        lemma_found(t, k);
    } else if device(t, id) is Some && !gone.contains(id) {
        lemma_device_at(t, id);
        let k = device_slot(t, id);
        assert(u[k] == t[k]);
        lemma_found(u, k);
    }
}

/// A chain of parents that starts in what is left of a thinned graph is the
/// chain it was, and stays in what is left.
proof fn lemma_thinned_chain(
    t: DevicesView,
    u: DevicesView,
    gone: Seq<ObjectId>,
    id: ObjectId,
    n: nat,
)
    requires
        devices_wf(t),
        devices_wf(u),
        thinned(t, u, gone),
        device(u, id) is Some,
    ensures
        above(u, id, n) == above(t, id, n),
        above(t, id, n) matches Some(m) ==> !gone.contains(m),
    decreases n,
{
    lemma_thinned(t, u, gone, id);
    if n > 0 {
        lemma_thinned_chain(t, u, gone, id, (n - 1) as nat);
        if let Some(m) = above(t, id, (n - 1) as nat) {
            lemma_thinned(t, u, gone, m);
            if device(u, m) is Some {
                lemma_device_at(u, m);
                assert(u[device_slot(u, m)] is Some);
            }
        }
    }
}

impl Executive {
    /// The device at or below `root` with nothing behind it that is reached by
    /// first devices, or `None` when the graph does not have `root`.
    fn deepest_below(&self, root: ObjectId) -> (r: Option<ObjectId>)
        requires
            self.wf(),
        ensures
            ({
                let t = self@.machine.devices;
                match r {
                    Some(id) => {
                        &&& device(t, root) is Some
                        &&& device(t, id) is Some
                        &&& sits_below(t, id, root)
                        &&& devices_where(t, behind(id)).len() == 0
                        &&& id == first_leaf(t, root)
                    },
                    None => device(t, root) is None,
                }
            }),
    {
        let ghost t = self@.machine.devices;
        if !self.machine.devices.contains(root) {
            return None;
        }
        let mut at: ObjectId = root;
        let mut n: usize = 0;
        assert(above(t, root, 0) == Some(root));
        while n <= MAX_DEVICES
            invariant
                self.wf(),
                t == self@.machine.devices,
                device(t, root) is Some,
                device(t, at) is Some,
                n <= MAX_DEVICES + 1,
                above(t, at, n as nat) == Some(root),
                descent(t, at, (MAX_DEVICES + 1 - n) as nat) == first_leaf(t, root),
            decreases MAX_DEVICES + 1 - n,
        {
            let children: Vec<ObjectId> = self.machine.devices.children_of(at);
            if children.len() == 0 {
                return Some(at);
            }
            let child: ObjectId = children[0];
            proof {
                lemma_child(t, at, 0);
                assert(above(t, child, 0) == Some(child));
                assert(above(t, child, 1) == Some(at));
                lemma_chain_split(t, child, 1, n as nat);
            }
            at = child;
            n += 1;
        }
        proof {
            lemma_chain_short(t, at, n as nat);
        }
        None
    }

    /// Ends the routes of `id` and tells the port of its first line that it
    /// will never assert again. Returns how many ports that told.
    fn end_line<R: InterruptRouter>(
        &mut self,
        cpu: u32,
        id: ObjectId,
        irqs: &mut R,
        log: &mut Vec<DeviceRecord>,
    ) -> (n: usize)
        requires
            old(self).wf(),
        ensures
            final(self).wf(),
            final(irqs).present() == old(irqs).present(),
            final(self)@ == old(self)@.line_removed(cpu, id),
            n == old(self)@.line_listeners(id),
            final(log)@ == old(log)@ + route_records(
                routes_of(old(self)@.machine.devices, id),
                id,
                EndReason::Removed,
            ),
            n <= MAX_PORTS,
            final(irqs).masked() == (if old(irqs).present() {
                old(irqs).masked() + lines(routes_of(old(self)@.machine.devices, id))
            } else {
                old(irqs).masked()
            }),
    {
        let ghost a = self@;
        match self.machine.devices.irq_route_of_object(id) {
            None => {
                proof {
                    assert(lines(routes_of(a.machine.devices, id)) =~= Seq::<u32>::empty());
                    assert(irqs.masked() + lines(routes_of(a.machine.devices, id))
                        =~= irqs.masked());
                }
                assert(log@ =~= old(log)@ + route_records(
                    routes_of(a.machine.devices, id),
                    id,
                    EndReason::Removed,
                ));
                0
            },
            Some(route) => {
                self.end_device_irq_route(route.holder, id, EndReason::Removed, irqs, log);
                let ghost e = self@;
                let bound = self.port_bind(
                    route.port,
                    route.intid as u64,
                    IRQ_PORT_SIGNAL_REMOVED,
                );
                proof {
                    if let Some(p) = port_at(e.machine.ports, route.port) {
                        slots::lemma_first(
                            p.bindings,
                            slots::free::<Binding>(),
                        );
                    }
                    assert(bound is Ok == a.line_bindable(id));
                }
                if bound.is_err() {
                    return 0;
                }
                proof {
                    slots::lemma_count_bound(
                        self@.machine.ports,
                        crate::exec::ports::listening(
                            route.intid as u64,
                            IRQ_PORT_SIGNAL_REMOVED,
                        ),
                    );
                }
                self.port_signal(cpu, route.intid as u64, IRQ_PORT_SIGNAL_REMOVED, 1)
            },
        }
    }

    /// Removes one device. See [`RemovalView::unplugged`].
    fn remove_one_device<S: Space, M: DmaMapper, R: InterruptRouter>(
        &mut self,
        cpu: u32,
        id: ObjectId,
        codes: NoticeCodes,
        processes: &mut ProcessTable<S>,
        iommu: &mut M,
        irqs: &mut R,
        log: &mut Vec<WindowRevoked>,
        records: &mut Vec<DeviceRecord>,
        cause: u64,
    ) -> (r: RemovalReport)
        requires
            old(self).wf(),
            old(processes).wf(),
        ensures
            final(self).wf(),
            final(processes).wf(),
            final(iommu).present() == old(iommu).present(),
            final(irqs).present() == old(irqs).present(),
            only_holds_differ(old(processes)@, final(processes)@),
            r.existed == (device(old(self)@.machine.devices, id) is Some),
            r.holders <= MAX_PROCESSES,
            r.windows == r.holders,
            r.dependents_told + r.dependents_missed <= MAX_DEPENDENTS,
            r.woken <= MAX_PORTS,
            r.subtree == if r.existed {
                1nat
            } else {
                0nat
            },
            ({
                let how = RemovalSetting {
                    cpu,
                    codes,
                    cause,
                    iommu: old(iommu).present(),
                    irqs: old(irqs).present(),
                };
                exists|outs: Seq<Outcomes>| #[trigger]
                    start_of(
                    old(self)@,
                    holds_of(old(processes)@),
                    old(iommu).trace(),
                    old(irqs).masked(),
                    old(log)@,
                    old(records)@,
                ).unplugged(how, id, outs) == (RemovalView {
                    state: final(self)@,
                    holds: holds_of(final(processes)@),
                    dma: final(iommu).trace(),
                    masked: final(irqs).masked(),
                    windows: final(log)@,
                    records: final(records)@,
                    holders: r.holders as nat,
                    told: r.dependents_told as nat,
                    missed: r.dependents_missed as nat,
                    woken: r.woken as nat,
                })
            }),
    {
        let ghost start = start_of(
            self@,
            holds_of(processes@),
            iommu.trace(),
            irqs.masked(),
            log@,
            records@,
        );
        let ghost procs = processes@;
        self.reroot(cpu, cause);
        let ghost v = self@;
        if self.machine.devices.lease_holder_of_object(id).is_some() {
            self.end_one_lease(id, EndReason::Removed, iommu, records);
        } else {
            assert(v.lease_ended(id) == v);
            assert(records@ =~= records@ + lease_record(
                v.machine.devices,
                id,
                EndReason::Removed,
            ));
        }
        let ghost a = self@;
        assert(a == v.lease_ended(id));
        let woken: usize = self.end_line(cpu, id, irqs, records);
        self.forget_attachments_to(id);
        assert(self@ == v.quiesced(cpu, id));
        let ghost seen = log@;
        let holders: usize = take_from_all(processes, id, log);
        let ghost outs = choose|outs: Seq<Outcomes>|
            log@ == seen + #[trigger] lost_by_all(holds_of(procs), id, outs) && holds_of(
                processes@,
            ) == all_stripped(holds_of(procs), id, outs);
        let (told, missed): (usize, usize) = self.tell_dependents(cpu, id, codes, cause);
        let from: DriverState = match self.machine.lifecycle.state_of(id) {
            Some(s) => s,
            None => DriverState::Discovered,
        };
        let ghost routed = records@;
        let ghost told_of = self@;
        let _declared = self.declare_lifecycle(
            id,
            from,
            DriverState::Removed,
            codes.reason,
            0,
            records,
        );
        assert(records@ =~= routed + told_of.removal_record(id, from, codes.reason));
        let ghost e = self@;
        let known: bool = self.machine.devices.remove(id).is_some();
        let ghost told_all = records@;
        records.push(
            DeviceRecord::Removed {
                device: id,
                holders: holders as u64,
                windows: holders as u64,
                dependents: (told + missed) as u64,
            },
        );
        assert(records@ =~= told_all + seq![records@.last()]);
        proof {
            assert(self@ =~= e.with_devices(self.machine.devices@));
            assert(self@ =~= e.without_node(id));
            let c = v.quiesced(cpu, id);
            lemma_quiesced(v, cpu, id);
            lemma_sent_each_frame(
                c,
                cpu,
                dependents(c.machine.devices, id),
                notice(id, codes),
                cause,
            );
            let how = RemovalSetting {
                cpu,
                codes,
                cause,
                iommu: old(iommu).present(),
                irqs: old(irqs).present(),
            };
            assert(start.unplugged(how, id, outs) =~= RemovalView {
                state: self@,
                holds: holds_of(processes@),
                dma: iommu.trace(),
                masked: irqs.masked(),
                windows: log@,
                records: records@,
                holders: holders as nat,
                told: told as nat,
                missed: missed as nat,
                woken: woken as nat,
            });
        }
        RemovalReport {
            existed: known,
            holders,
            windows: holders,
            dependents_told: told,
            dependents_missed: missed,
            woken,
            subtree: if known {
                1
            } else {
                0
            },
        }
    }
}

/// A removal that has not begun.
pub open spec fn start_of(
    state: ExecView,
    holds: Seq<Option<HoldView>>,
    dma: Seq<DmaOp>,
    masked: Seq<u32>,
    windows: Seq<WindowRevoked>,
    records: Seq<DeviceRecord>,
) -> RemovalView {
    RemovalView {
        state,
        holds,
        dma,
        masked,
        windows,
        records,
        holders: 0,
        told: 0,
        missed: 0,
        woken: 0,
    }
}

/// A listed child sits directly behind its parent.
proof fn lemma_child(t: DevicesView, at: ObjectId, k: int)
    requires
        devices_wf(t),
        0 <= k < devices_where(t, behind(at)).len(),
    ensures
        device(t, devices_where(t, behind(at))[k]) is Some,
        parent(t, devices_where(t, behind(at))[k]) == Some(at),
{
    lemma_listed_from(t, behind(at), k);
    let i = choose|i: int|
        0 <= i < t.len() && (#[trigger] t[i]) is Some && behind(at)(t[i]->0) && t[i]->0.object
            == devices_where(t, behind(at))[k];
    lemma_found(t, i);
}

/// Every listed device is in the table and has the predicate.
proof fn lemma_listed_from(t: DevicesView, p: spec_fn(DeviceView) -> bool, k: int)
    requires
        0 <= k < devices_where(t, p).len(),
    ensures
        exists|i: int|
            0 <= i < t.len() && (#[trigger] t[i]) is Some && p(t[i]->0) && t[i]->0.object
                == devices_where(t, p)[k],
    decreases t.len(),
{
    let before = devices_where(t.drop_last(), p);
    if k < before.len() {
        lemma_listed_from(t.drop_last(), p, k);
        let i = choose|i: int|
            0 <= i < t.drop_last().len() && (#[trigger] t.drop_last()[i]) is Some && p(
                t.drop_last()[i]->0,
            ) && t.drop_last()[i]->0.object == before[k];
        assert(t[i] is Some && p(t[i]->0));
    } else {
        assert(t[t.len() - 1] is Some);
    }
}

/// Removing a device nothing sits behind thins the graph by one more.
proof fn lemma_thinned_more(
    t: DevicesView,
    u: DevicesView,
    gone: Seq<ObjectId>,
    id: ObjectId,
    w: DevicesView,
)
    requires
        devices_wf(t),
        devices_wf(u),
        thinned(t, u, gone),
        device(u, id) is Some,
        devices_where(u, behind(id)).len() == 0,
        w == u.update(device_slot(u, id), None),
    ensures
        thinned(t, w, gone.push(id)),
        slots::count(w, slots::used::<DeviceView>()) + 1 == slots::count(
            u,
            slots::used::<DeviceView>(),
        ),
{
    let more = gone.push(id);
    let at = device_slot(u, id);
    lemma_device_at(u, id);
    assert forall|x: ObjectId| more.contains(x) == (gone.contains(x) || x == id) by {
        assert(more[gone.len() as int] == id);
        if gone.contains(x) {
            let k = choose|k: int| 0 <= k < gone.len() && gone[k] == x;
            assert(more[k] == x);
        }
    }
    assert forall|i: int| 0 <= i < t.len() implies #[trigger] w[i] == (if t[i] is Some
        && more.contains(t[i]->0.object) {
        None
    } else {
        t[i]
    }) by {
        assert(u[i] == (if t[i] is Some && gone.contains(t[i]->0.object) {
            None
        } else {
            t[i]
        }));
        if u[i] is Some {
            lemma_found(u, i);
        }
    }
    assert forall|i: int|
        0 <= i < t.len() && (#[trigger] w[i]) is Some && w[i]->0.parent is Some implies !more.contains(
        w[i]->0.parent->0,
    ) by {
        assert(u[i] == w[i]);
        if w[i]->0.parent == Some(id) {
            lemma_listed(u, behind(id), i);
        }
    }
    slots::lemma_count_update(u, slots::used::<DeviceView>(), at, None);
}

/// Once `root` is gone too, everything below it is.
proof fn lemma_all_gone(t: DevicesView, u: DevicesView, gone: Seq<ObjectId>, root: ObjectId)
    requires
        devices_wf(t),
        devices_wf(u),
        thinned(t, u, gone),
        gone.contains(root),
        forall|k: int|
            0 <= k < gone.len() ==> device(t, #[trigger] gone[k]) is Some && sits_below(
                t,
                gone[k],
                root,
            ),
    ensures
        forall|id: ObjectId| #[trigger]
            gone.contains(id) <==> device(t, id) is Some && sits_below(t, id, root),
        u == without_subtree(t, root),
{
    assert forall|id: ObjectId| #[trigger] gone.contains(id) <==> device(t, id) is Some
        && sits_below(t, id, root) by {
        if gone.contains(id) {
            let k = choose|k: int| 0 <= k < gone.len() && gone[k] == id;
            assert(device(t, gone[k]) is Some);
        } else if device(t, id) is Some && sits_below(t, id, root) {
            let n = choose|n: nat| #[trigger] above(t, id, n) == Some(root);
            lemma_thinned(t, u, gone, id);
            lemma_thinned_chain(t, u, gone, id, n);
        }
    }
    assert(u =~= without_subtree(t, root)) by {
        assert forall|i: int| 0 <= i < t.len() implies #[trigger] u[i] == without_subtree(
            t,
            root,
        )[i] by {
            if t[i] is Some {
                lemma_found(t, i);
                assert(gone.contains(t[i]->0.object) <==> sits_below(t, t[i]->0.object, root));
            }
        }
    }
}

/// A removal with what it has changed and counted so far.
pub open spec fn total_view(
    state: ExecView,
    holds: Seq<Option<HoldView>>,
    dma: Seq<DmaOp>,
    masked: Seq<u32>,
    windows: Seq<WindowRevoked>,
    records: Seq<DeviceRecord>,
    r: RemovalReport,
) -> RemovalView {
    RemovalView {
        state,
        holds,
        dma,
        masked,
        windows,
        records,
        holders: r.holders as nat,
        told: r.dependents_told as nat,
        missed: r.dependents_missed as nat,
        woken: r.woken as nat,
    }
}

/// A removal of everything at or below `root` that has come as far as `order`,
/// with `u` left of the graph `t`.
#[verifier::opaque]
spec fn underway(t: DevicesView, u: DevicesView, root: ObjectId, order: Seq<ObjectId>) -> bool {
    &&& thinned(t, u, order)
    &&& !order.contains(root)
    &&& order.len() > 0 ==> device(t, root) is Some
    &&& order.no_duplicates()
    &&& forall|k: int|
        0 <= k < order.len() ==> device(t, #[trigger] order[k]) is Some && sits_below(
            t,
            order[k],
            root,
        )
    &&& forall|i: int, j: int|
        0 <= i < j < order.len() ==> !#[trigger] sits_below(t, order[j], order[i])
    &&& forall|k: int|
        0 <= k < order.len() ==> #[trigger] order[k] == first_leaf(
            left_of(t, order.take(k)),
            root,
        )
    &&& slots::count(u, slots::used::<DeviceView>()) + order.len() <= MAX_DEVICES
}

/// A removal takes one more device, or is complete.
proof fn lemma_underway_step(
    t: DevicesView,
    u: DevicesView,
    w: DevicesView,
    root: ObjectId,
    order: Seq<ObjectId>,
    target: ObjectId,
)
    requires
        devices_wf(t),
        devices_wf(u),
        devices_wf(w),
        underway(t, u, root, order),
        device(u, root) is Some,
        device(u, target) is Some,
        sits_below(u, target, root),
        devices_where(u, behind(target)).len() == 0,
        target == first_leaf(u, root),
        w == u.update(device_slot(u, target), None),
    ensures
        device(t, root) is Some,
        target != root ==> underway(t, w, root, order.push(target)),
        target == root ==> leaves_first(t, root, order.push(target)) && w == without_subtree(
            t,
            root,
        ),
{
    reveal(underway);
    let longer = order.push(target);
    lemma_thinned(t, u, order, root);
    lemma_thinned(t, u, order, target);
    let n = choose|n: nat| #[trigger] above(u, target, n) == Some(root);
    lemma_thinned_chain(t, u, order, target, n);
    assert(sits_below(t, target, root));
    lemma_thinned_more(t, u, order, target, w);
    assert(longer.no_duplicates());
    assert(longer[order.len() as int] == target);
    assert forall|k: int| 0 <= k < longer.len() implies device(t, #[trigger] longer[k]) is Some
        && sits_below(t, longer[k], root) by {
        if k < order.len() {
            assert(longer[k] == order[k]);
        }
    }
    assert forall|i: int, j: int| 0 <= i < j < longer.len() implies !#[trigger] sits_below(
        t,
        longer[j],
        longer[i],
    ) by {
        assert(longer[i] == order[i]);
        if j < order.len() {
            assert(longer[j] == order[j]);
        } else if sits_below(t, target, order[i]) {
            let m = choose|m: nat| #[trigger] above(t, target, m) == Some(order[i]);
            lemma_thinned_chain(t, u, order, target, m);
            assert(order.contains(order[i]));
        }
    }
    assert forall|k: int| 0 <= k < longer.len() implies #[trigger] longer[k] == first_leaf(
        left_of(t, longer.take(k)),
        root,
    ) by {
        if k < order.len() {
            assert(longer.take(k) =~= order.take(k));
            assert(longer[k] == order[k]);
        } else {
            assert(longer.take(k) =~= order);
            assert(left_of(t, order) =~= u);
        }
    }
    if target == root {
        assert(longer.contains(root));
        lemma_all_gone(t, w, longer, root);
    }
}

/// A removal that cannot go on has not begun.
proof fn lemma_underway_ends(
    t: DevicesView,
    u: DevicesView,
    root: ObjectId,
    order: Seq<ObjectId>,
)
    requires
        devices_wf(t),
        devices_wf(u),
        underway(t, u, root, order),
        device(u, root) is None || order.len() >= MAX_DEVICES,
    ensures
        device(t, root) is None,
        order == Seq::<ObjectId>::empty(),
{
    reveal(underway);
    lemma_thinned(t, u, order, root);
    if device(u, root) is Some {
        lemma_device_at(u, root);
        slots::lemma_count_positive(u, slots::used::<DeviceView>(), device_slot(u, root));
    }
    assert(order =~= Seq::empty());
}

/// Removing one device more is one step more of the fold.
proof fn lemma_fold_step(
    s: RemovalView,
    how: RemovalSetting,
    order: Seq<ObjectId>,
    steps: Seq<Seq<Outcomes>>,
    before: RemovalView,
    target: ObjectId,
    outs: Seq<Outcomes>,
)
    requires
        s.all_unplugged(how, order, steps) == before,
    ensures
        s.all_unplugged(how, order.push(target), steps.push(outs)) == before.unplugged(
            how,
            target,
            outs,
        ),
{
    assert(order.push(target).drop_last() =~= order);
    assert(steps.push(outs).drop_last() =~= steps);
}

/// What removing a device changes does not depend on what was counted before,
/// and what it counts is added.
proof fn lemma_counts_carry(
    state: ExecView,
    holds: Seq<Option<HoldView>>,
    dma: Seq<DmaOp>,
    masked: Seq<u32>,
    windows: Seq<WindowRevoked>,
    records: Seq<DeviceRecord>,
    total: RemovalReport,
    how: RemovalSetting,
    id: ObjectId,
    outs: Seq<Outcomes>,
)
    requires
        state.cpus.len() == MAX_CPUS,
        devices_wf(state.machine.devices),
    ensures
        ({
            let one = start_of(state, holds, dma, masked, windows, records).unplugged(
                how,
                id,
                outs,
            );
            let all = total_view(state, holds, dma, masked, windows, records, total);
            all.unplugged(how, id, outs) == (RemovalView {
                holders: (total.holders + one.holders) as nat,
                told: (total.dependents_told + one.told) as nat,
                missed: (total.dependents_missed + one.missed) as nat,
                woken: (total.woken + one.woken) as nat,
                ..one
            })
        }),
{
    let v = state.rerooted(how.cpu, how.cause);
    let c = v.quiesced(how.cpu, id);
    lemma_quiesced(v, how.cpu, id);
    lemma_sent_each_frame(
        c,
        how.cpu,
        dependents(c.machine.devices, id),
        notice(id, how.codes),
        how.cause,
    );
}

/// Differing only in holds composes.
proof fn lemma_only_holds_differ<S: Space>(
    a: Seq<Option<ProcessView<S>>>,
    b: Seq<Option<ProcessView<S>>>,
    c: Seq<Option<ProcessView<S>>>,
)
    requires
        only_holds_differ(a, b),
        only_holds_differ(b, c),
    ensures
        only_holds_differ(a, c),
{
    assert forall|i: int| 0 <= i < a.len() implies only_hold_differs(a[i], #[trigger] c[i]) by {
        assert(only_hold_differs(a[i], b[i]));
        assert(only_hold_differs(b[i], c[i]));
    }
}

/// The graph without everything at or below `root`.
pub open spec fn without_subtree(t: DevicesView, root: ObjectId) -> DevicesView {
    Seq::new(
        t.len(),
        |i: int|
            if t[i] is Some && sits_below(t, t[i]->0.object, root) {
                None
            } else {
                t[i]
            },
    )
}

impl Executive {
    /// Removes `root` and everything behind it from the machine, each device
    /// after everything behind it, and from every process that holds it.
    /// Dependents are told it is removed, for the reason numbered `reason`. Each
    /// window taken down is reported in `log`, and each lease, route and
    /// transition in `records`. Removing a device the graph
    /// does not have does nothing.
    pub fn remove_device<S: Space, M: DmaMapper, R: InterruptRouter>(
        &mut self,
        cpu: u32,
        root: ObjectId,
        numbers: StateNumbers,
        reason: u32,
        processes: &mut ProcessTable<S>,
        iommu: &mut M,
        irqs: &mut R,
        log: &mut Vec<WindowRevoked>,
        records: &mut Vec<DeviceRecord>,
        cause: u64,
    ) -> (r: RemovalReport)
        requires
            old(self).wf(),
            old(processes).wf(),
        ensures
            final(self).wf(),
            final(processes).wf(),
            final(iommu).present() == old(iommu).present(),
            final(irqs).present() == old(irqs).present(),
            only_holds_differ(old(processes)@, final(processes)@),
            r.existed == (device(old(self)@.machine.devices, root) is Some),
            r.windows == r.holders,
            ({
                let t = old(self)@.machine.devices;
                let how = RemovalSetting {
                    cpu,
                    codes: numbers.codes(DriverState::Removed, reason),
                    cause,
                    iommu: old(iommu).present(),
                    irqs: old(irqs).present(),
                };
                let start = start_of(
                    old(self)@,
                    holds_of(old(processes)@),
                    old(iommu).trace(),
                    old(irqs).masked(),
                    old(log)@,
                    old(records)@,
                );
                let end = total_view(
                    final(self)@,
                    holds_of(final(processes)@),
                    final(iommu).trace(),
                    final(irqs).masked(),
                    final(log)@,
                    final(records)@,
                    r,
                );
                if device(t, root) is None {
                    end == start && r.subtree == 0
                } else {
                    &&& final(self)@.machine.devices == without_subtree(t, root)
                    &&& exists|order: Seq<ObjectId>, steps: Seq<Seq<Outcomes>>| #[trigger]
                        leaves_first(t, root, order) && order.len() == r.subtree && end
                            == #[trigger] start.all_unplugged(how, order, steps)
                }
            }),
    {
        let codes: NoticeCodes = numbers.removal(reason);
        let ghost v = self@;
        let ghost t = v.machine.devices;
        let ghost procs = processes@;
        let ghost how = RemovalSetting {
            cpu,
            codes,
            cause,
            iommu: iommu.present(),
            irqs: irqs.present(),
        };
        let ghost start = start_of(
            v,
            holds_of(procs),
            iommu.trace(),
            irqs.masked(),
            log@,
            records@,
        );
        let mut total = RemovalReport {
            existed: false,
            holders: 0,
            windows: 0,
            dependents_told: 0,
            dependents_missed: 0,
            woken: 0,
            subtree: 0,
        };
        let ghost mut order: Seq<ObjectId> = Seq::empty();
        let ghost mut steps: Seq<Seq<Outcomes>> = Seq::empty();
        proof {
            slots::lemma_count_bound(t, slots::used::<DeviceView>());
            reveal(underway);
        }
        while total.subtree < MAX_DEVICES
            invariant
                self.wf(),
                processes.wf(),
                v == old(self)@,
                t == v.machine.devices,
                devices_wf(t),
                procs == old(processes)@,
                codes == numbers.codes(DriverState::Removed, reason),
                start == start_of(
                    v,
                    holds_of(procs),
                    old(iommu).trace(),
                    old(irqs).masked(),
                    old(log)@,
                    old(records)@,
                ),
                how == (RemovalSetting {
                    cpu,
                    codes,
                    cause,
                    iommu: old(iommu).present(),
                    irqs: old(irqs).present(),
                }),
                iommu.present() == how.iommu,
                irqs.present() == how.irqs,
                only_holds_differ(procs, processes@),
                total.subtree == order.len(),
                total.existed == (order.len() > 0),
                total.windows == total.holders,
                total.holders <= total.subtree * MAX_PROCESSES,
                total.dependents_told + total.dependents_missed <= total.subtree * MAX_DEPENDENTS,
                total.woken <= total.subtree * MAX_PORTS,
                total.subtree <= MAX_DEVICES,
                start.all_unplugged(how, order, steps) == total_view(
                    self@,
                    holds_of(processes@),
                    iommu.trace(),
                    irqs.masked(),
                    log@,
                    records@,
                    total,
                ),
                underway(t, self@.machine.devices, root, order),
            decreases MAX_DEVICES - total.subtree,
        {
            let ghost u = self@.machine.devices;
            let target: ObjectId = match self.deepest_below(root) {
                None => {
                    proof {
                        lemma_underway_ends(t, u, root, order);
                    }
                    return total;
                },
                Some(d) => d,
            };
            let ghost before = total_view(
                self@,
                holds_of(processes@),
                iommu.trace(),
                irqs.masked(),
                log@,
                records@,
                total,
            );
            let ghost held = processes@;
            let ghost first = start_of(
                self@,
                holds_of(processes@),
                iommu.trace(),
                irqs.masked(),
                log@,
                records@,
            );
            let one = self.remove_one_device(
                cpu,
                target,
                codes,
                processes,
                iommu,
                irqs,
                log,
                records,
                cause,
            );
            proof {
                let outs = choose|outs: Seq<Outcomes>| #[trigger]
                    first.unplugged(how, target, outs) == (RemovalView {
                        state: self@,
                        holds: holds_of(processes@),
                        dma: iommu.trace(),
                        masked: irqs.masked(),
                        windows: log@,
                        records: records@,
                        holders: one.holders as nat,
                        told: one.dependents_told as nat,
                        missed: one.dependents_missed as nat,
                        woken: one.woken as nat,
                    });
                lemma_unplugged_graph(before, how, target, outs);
                lemma_underway_step(t, u, self@.machine.devices, root, order, target);
                lemma_only_holds_differ(procs, held, processes@);
                lemma_fold_step(start, how, order, steps, before, target, outs);
                lemma_counts_carry(
                    before.state,
                    before.holds,
                    before.dma,
                    before.masked,
                    before.windows,
                    before.records,
                    total,
                    how,
                    target,
                    outs,
                );
                order = order.push(target);
                steps = steps.push(outs);
            }
            total =
            RemovalReport {
                existed: true,
                holders: total.holders + one.holders,
                windows: total.windows + one.windows,
                dependents_told: total.dependents_told + one.dependents_told,
                dependents_missed: total.dependents_missed + one.dependents_missed,
                woken: total.woken + one.woken,
                subtree: total.subtree + 1,
            };
            if target == root {
                return total;
            }
        }
        proof {
            lemma_underway_ends(t, self@.machine.devices, root, order);
        }
        total
    }
}

/// Taking one device from a process gives it no other.
proof fn lemma_stripped_holds(h: HoldView, taken: ObjectId, out: Outcomes, id: ObjectId)
    requires
        h.handles.wf(),
    ensures
        h.stripped(taken, out).handles.holds(id) ==> h.handles.holds(id) && id != taken,
{
    let s = h.stripped(taken, out);
    if s.handles.holds(id) && h.handles.holds(taken) {
        let i = choose|i: int|
            0 <= i < s.handles.slots.len() && naming(id)(#[trigger] s.handles.slots[i]);
        assert(h.handles.slots[i] == s.handles.slots[i]);
        assert(naming(id)(h.handles.slots[i]));
        let one = seq![(taken, Rights(0))];
        assert(one[0].0 == taken);
        assert(reported(one, taken));
    }
}

/// No process keeps a handle to a device that has been removed.
pub proof fn law_nobody_keeps_a_removed_device(
    s: RemovalView,
    how: RemovalSetting,
    order: Seq<ObjectId>,
    steps: Seq<Seq<Outcomes>>,
    id: ObjectId,
    i: int,
)
    requires
        order.contains(id),
        0 <= i < s.holds.len(),
        s.holds[i] matches Some(p) ==> p.handles.wf(),
    ensures
        s.all_unplugged(how, order, steps).holds.len() == s.holds.len(),
        s.all_unplugged(how, order, steps).holds[i] matches Some(p) ==> !p.handles.holds(id),
    decreases order.len(),
{
    let shorter = order.drop_last();
    let fewer = steps.drop_last();
    lemma_holds_wf(s, how, shorter, fewer, i);
    let before = s.all_unplugged(how, shorter, fewer);
    if let Some(p) = before.holds[i] {
        lemma_stripped_holds(p, order.last(), steps.last()[i], id);
        if id != order.last() {
            let k = choose|k: int| 0 <= k < order.len() && order[k] == id;
            assert(shorter[k] == id);
            law_nobody_keeps_a_removed_device(s, how, shorter, fewer, id, i);
        }
    }
}

proof fn lemma_holds_wf(
    s: RemovalView,
    how: RemovalSetting,
    order: Seq<ObjectId>,
    steps: Seq<Seq<Outcomes>>,
    i: int,
)
    requires
        0 <= i < s.holds.len(),
        s.holds[i] matches Some(p) ==> p.handles.wf(),
    ensures
        s.all_unplugged(how, order, steps).holds.len() == s.holds.len(),
        s.all_unplugged(how, order, steps).holds[i] matches Some(p) ==> p.handles.wf(),
    decreases order.len(),
{
    if order.len() > 0 {
        lemma_holds_wf(s, how, order.drop_last(), steps.drop_last(), i);
    }
}

/// Removing a device whose lifecycle was recorded closes it: from any state
/// that is not already the end, it is recorded as removed.
pub proof fn law_removal_closes_the_lifecycle(
    s: RemovalView,
    how: RemovalSetting,
    id: ObjectId,
    outs: Seq<Outcomes>,
)
    requires
        s.state.cpus.len() == MAX_CPUS,
        devices_wf(s.state.machine.devices),
        recorded(s.state.machine.lifecycle, id) is Some,
    ensures
        recorded(s.unplugged(how, id, outs).state.machine.lifecycle, id) == Some(
            DriverState::Removed,
        ),
{
    let v = s.state.rerooted(how.cpu, how.cause);
    let l = v.machine.lifecycle;
    let c = v.quiesced(how.cpu, id);
    lemma_quiesced(v, how.cpu, id);
    let ends = dependents(c.machine.devices, id);
    lemma_sent_each_frame(c, how.cpu, ends, notice(id, how.codes), how.cause);
    let d = c.sent_each(how.cpu, ends, notice(id, how.codes), how.cause);
    lemma_quiesced_lifecycle(v, how.cpu, id);
    assert(d.machine.lifecycle == l);
    let at = slots::first(l, entry_of(id));
    slots::lemma_first(l, entry_of(id));
    let from = standing(l, id);
    crate::lifecycle::law_anything_can_be_removed(from);
    let after = moved(l, id, DriverState::Removed);
    slots::lemma_first_is(after, entry_of(id), at);
}

proof fn lemma_quiesced_lifecycle(v: ExecView, cpu: u32, id: ObjectId)
    requires
        v.cpus.len() == MAX_CPUS,
    ensures
        v.quiesced(cpu, id).machine.lifecycle == v.machine.lifecycle,
{
    let a = v.lease_ended(id);
    let e = a.routes_ended(id);
    if let Some(r) = first_route(a.machine.devices, id) {
        if a.line_bindable(id) {
            let p = port_at(e.machine.ports, r.port)->0.with_binding(
                r.intid as u64,
                IRQ_PORT_SIGNAL_REMOVED,
            );
            lemma_signalled_frame(
                e.with_port(r.port, p),
                cpu,
                r.intid as u64,
                IRQ_PORT_SIGNAL_REMOVED,
                1,
            );
        }
    }
}

/// A process that holds a removed device loses every handle to it and every
/// window on it, each unmapped where it was, and keeps everything else; one that
/// does not hold it keeps everything.
pub proof fn law_a_holder_loses_the_device_and_its_windows(
    h: HoldView,
    id: ObjectId,
    out: Outcomes,
    i: int,
    k: int,
)
    requires
        h.handles.wf(),
        0 <= i < MAX_HANDLES,
        0 <= k < h.windows.len(),
    ensures
        ({
            let s = h.stripped(id, out);
            let held = exists|j: int|
                0 <= j < MAX_HANDLES && (#[trigger] h.handles.slots[j] matches Some(e) && e.object
                    == id);
            &&& !held ==> s == h
            &&& held ==> {
                &&& h.handles.slots[i] matches Some(e) ==> s.handles.slots[i] == (if e.object == id {
                    None
                } else {
                    Some(e)
                })
                &&& h.handles.slots[i] is None ==> s.handles.slots[i] is None
                &&& h.windows[k] matches Some(w) ==> s.windows[k] == (if w.object == id {
                    None
                } else {
                    Some(w)
                })
                &&& h.windows[k] is None ==> s.windows[k] is None
                &&& h.trace.is_prefix_of(s.trace)
                &&& h.windows[k] matches Some(w) ==> (w.object == id ==> exists|j: int|
                    h.trace.len() <= j < s.trace.len() && #[trigger] s.trace[j]
                        == (SpaceOp::UnmapDevice { va: w.va, pages: w.pages }))
            }
        }),
{
    let s = h.stripped(id, out);
    crate::handle::law_a_handle_is_a_slot_and_a_generation(
        h.handles,
        crate::handle::Handle(0),
        id,
    );
    let one = seq![(id, Rights(0))];
    crate::handle::law_reclaiming_takes_what_it_reports(h.handles, one, MAX_HANDLES as int, i);
    assert(one[0].0 == id);
    let lost = chosen(h.windows, window_on(id));
    crate::process::law_an_objects_windows_are_taken(h.windows, id, k);
    if h.handles.holds(id) {
        assert(h.trace.is_prefix_of(h.trace + unmaps(lost)));
        if let Some(w) = h.windows[k] {
            if w.object == id {
                let j = choose|j: int| 0 <= j < lost.len() && lost[j] == w;
                assert(unmaps(lost)[j] == (SpaceOp::UnmapDevice { va: w.va, pages: w.pages }));
                assert(s.trace[h.trace.len() + j] == unmaps(lost)[j]);
            }
        }
    }
}

/// A removed device leaves nothing behind: the graph does not have it, nothing is
/// reached through it, the DMA unit is told if it had a lease, every line of it
/// is masked, each dependent is told or counted as missed, and the removal is the
/// last thing on record, with how many held it.
pub proof fn law_a_removed_device_leaves_nothing_behind(
    s: RemovalView,
    how: RemovalSetting,
    id: ObjectId,
    outs: Seq<Outcomes>,
)
    requires
        s.state.cpus.len() == MAX_CPUS,
        devices_wf(s.state.machine.devices),
        device(s.state.machine.devices, id) is Some,
    ensures
        ({
            let n = device(s.state.machine.devices, id)->0;
            let e = s.unplugged(how, id, outs);
            &&& e.state.machine.devices[device_slot(s.state.machine.devices, id)] is None
            &&& forall|k: int|
                0 <= k < e.state.machine.memory.objects.len() ==> (
                #[trigger] e.state.machine.memory.objects[k] matches Some(o) ==> (
                o.attached matches Some(a) ==> a.device != id))
            &&& e.dma == (if n.lease is Some && how.iommu {
                s.dma.push(DmaOp::EndLease(id))
            } else {
                s.dma
            })
            &&& how.irqs ==> e.masked.len() == s.masked.len() + n.routes.len() && forall|k: int|
                0 <= k < n.routes.len() ==> e.masked[s.masked.len() + k] == (
                #[trigger] n.routes[k]).intid
            &&& !how.irqs ==> e.masked == s.masked
            &&& e.told + e.missed == s.told + s.missed + n.dependents.len()
            &&& e.told >= s.told
            &&& e.holders == s.holders + slots::count(s.holds, holding(id))
            &&& e.records.len() > s.records.len()
            &&& s.records.is_prefix_of(e.records)
            &&& e.records.last() matches DeviceRecord::Removed {
                device: d,
                holders,
                windows,
                dependents: told,
            } && d == id && told == n.dependents.len() as u64 && holders == windows && holders
                == slots::count(s.holds, holding(id)) as u64
        }),
{
    let v = s.state.rerooted(how.cpu, how.cause);
    let t = v.machine.devices;
    let n = device(t, id)->0;
    assert(t == s.state.machine.devices);
    lemma_device_at(t, id);
    let c = v.quiesced(how.cpu, id);
    lemma_quiesced(v, how.cpu, id);
    let a = v.lease_ended(id);
    let other = ObjectId(if id.0 == 0 {
        1
    } else {
        0
    });
    crate::exec::devices::law_a_lease_ends_for_one_device(v, id, other, 0);
    let u = a.machine.devices;
    assert(same_shape(t, u));
    lemma_same_shape(t, u);
    crate::exec::devices::law_routes_end_for_one_device(a, id, other);
    let b = a.routes_ended(id);
    if let Some(r) = first_route(u, id) {
        if a.line_bindable(id) {
            let p = port_at(b.machine.ports, r.port)->0.with_binding(
                r.intid as u64,
                IRQ_PORT_SIGNAL_REMOVED,
            );
            lemma_signalled_frame(
                b.with_port(r.port, p),
                how.cpu,
                r.intid as u64,
                IRQ_PORT_SIGNAL_REMOVED,
                1,
            );
        }
    }
    assert(c.machine.devices == u || c.machine.devices == b.machine.devices);
    assert(dependents(c.machine.devices, id) == n.dependents);
    assert(routes_of(a.machine.devices, id) == n.routes);
    let ends = dependents(c.machine.devices, id);
    let m = notice(id, how.codes);
    lemma_sent_each_frame(c, how.cpu, ends, m, how.cause);
    let e = s.unplugged(how, id, outs);
    assert(s.records.is_prefix_of(e.records));
}

/// A removal takes what sits below the device it starts at and nothing else, and
/// of two devices one of which sits below the other, that one goes first.
pub proof fn law_a_subtree_goes_leaves_first(
    t: DevicesView,
    root: ObjectId,
    order: Seq<ObjectId>,
    i: int,
    j: int,
)
    requires
        leaves_first(t, root, order),
        0 <= i < order.len(),
        0 <= j < order.len(),
        i != j,
    ensures
        order[i] != order[j],
        sits_below(t, order[i], root),
        device(t, order[i]) is Some,
        sits_below(t, order[i], order[j]) ==> i < j,
        device(t, root) is Some ==> order.contains(root),
{
    assert(order.contains(order[i]));
    assert(above(t, root, 0) == Some(root));
}

/// What is left of the graph after a removal is every device that did not sit
/// below the one removed, as it was.
pub proof fn law_the_rest_of_the_graph_stays(t: DevicesView, root: ObjectId, i: int)
    requires
        0 <= i < t.len(),
    ensures
        without_subtree(t, root).len() == t.len(),
        t[i] matches Some(n) ==> without_subtree(t, root)[i] == (if sits_below(t, n.object, root) {
            None
        } else {
            Some(n)
        }),
        t[i] is None ==> without_subtree(t, root)[i] is None,
{
}

/// A removal takes handles and windows from processes and nothing else of them.
pub proof fn law_a_removal_leaves_processes_running<S: Space>(
    t: Seq<Option<ProcessView<S>>>,
    u: Seq<Option<ProcessView<S>>>,
    i: int,
)
    requires
        only_holds_differ(t, u),
        0 <= i < t.len(),
    ensures
        u.len() == t.len(),
        t[i] is None ==> u[i] is None,
        t[i] matches Some(p) ==> (u[i] matches Some(q) && q.id == p.id && q.threads == p.threads
            && q.state == p.state && q.waiters == p.waiters && q.job == p.job && q.memory_mappings
            == p.memory_mappings),
        holds_of(t).len() == t.len(),
        t[i] matches Some(p) ==> (holds_of(t)[i] matches Some(h) && h.handles == p.handles
            && h.windows == p.device_windows && h.trace == p.space.trace()),
{
    assert(only_hold_differs(t[i], u[i]));
}

/// Whoever listens on the removed device's first line is told that it will not
/// assert again: the port has an asserted binding that says so, where there was
/// room for one.
pub proof fn law_a_removed_line_is_announced(v: ExecView, cpu: u32, id: ObjectId)
    requires
        v.cpus.len() == MAX_CPUS,
        crate::port::ports_wf(v.routes_ended(id).machine.ports),
        first_route(v.machine.devices, id) is Some,
    ensures
        v.line_bindable(id) ==> ({
            let r = first_route(v.machine.devices, id)->0;
            &&& port_at(v.line_removed(cpu, id).machine.ports, r.port) matches Some(p)
            &&& exists|k: int|
                0 <= k < p.bindings.len() && (#[trigger] p.bindings[k] matches Some(b) && b.source
                    == r.intid && b.signal == IRQ_PORT_SIGNAL_REMOVED && b.asserted && b.pending
                    >= 1)
            &&& p.blocked_drainer is None
        }),
        !v.line_bindable(id) ==> v.line_removed(cpu, id) == v.routes_ended(id),
{
    let r = first_route(v.machine.devices, id)->0;
    let e = v.routes_ended(id);
    if v.line_bindable(id) {
        let p = port_at(e.machine.ports, r.port)->0;
        assert(e.machine.ports[r.port.0 as int] == Some(p));
        let source = r.intid as u64;
        let signal = IRQ_PORT_SIGNAL_REMOVED;
        let q = p.with_binding(source, signal);
        slots::lemma_first(p.bindings, slots::free::<Binding>());
        slots::lemma_first(p.bindings, crate::port::bound(source, signal));
        let at = p.vacancy();
        assert(q.bindings[at] matches Some(b) && b.source == source && b.signal == signal);
        assert forall|j: int| 0 <= j < at implies !crate::port::bound(source, signal)(
            #[trigger] q.bindings[j],
        ) by {
            assert(!crate::port::bound(source, signal)(p.bindings[j]));
        }
        slots::lemma_first_is(q.bindings, crate::port::bound(source, signal), at);
        let w = e.with_port(r.port, q);
        lemma_signalled_frame(w, cpu, source, signal, 1);
        let d = q.delivered(source, signal, 1);
        assert(d.bindings[at] matches Some(b) && b.asserted && b.pending == 1);
        assert(w.machine.ports[r.port.0 as int] == Some(q));
        let end = v.line_removed(cpu, id);
        assert(end.machine.ports[r.port.0 as int]
            == crate::exec::ports::signalled_port(Some(q), source, signal, 1));
        assert(port_at(end.machine.ports, r.port)->0.bindings[at] matches Some(b) && b.asserted);
    }
}

/// What is told of a removal's windows is told window by window, for each process
/// that held the device, and its lifecycle's end only where that is recorded.
pub proof fn law_lost_windows_are_told(
    h: HoldView,
    id: ObjectId,
    out: Outcomes,
    v: ExecView,
    from: DriverState,
    reason: u32,
    i: int,
)
    ensures
        lost_by(None, id, out).len() == 0,
        !h.handles.holds(id) ==> lost_by(Some(h), id, out).len() == 0,
        h.handles.holds(id) ==> lost_by(Some(h), id, out).len() == chosen(
            h.windows,
            window_on(id),
        ).len(),
        h.handles.holds(id) && 0 <= i < chosen(h.windows, window_on(id)).len() ==> {
            let told = lost_by(Some(h), id, out)[i];
            told.object == id && told.va == chosen(h.windows, window_on(id))[i].va && told.reason
                == WindowRevokeReason::Removed && told.failed == out[i]
        },
        v.lifecycle_objection(id, from, DriverState::Removed) is Some ==> v.removal_record(
            id,
            from,
            reason,
        ).len() == 0,
        v.lifecycle_objection(id, from, DriverState::Removed) is None ==> v.removal_record(
            id,
            from,
            reason,
        ).len() == 1 && v.removal_record(id, from, reason)[0] == (DeviceRecord::Transition {
            device: id,
            from,
            to: DriverState::Removed,
            reason,
            detail: 0,
        }),
{
}

} // verus!
