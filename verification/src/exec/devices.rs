//! Devices through the executive: the machine's resource graph, and the DMA
//! leases and interrupt routes that must end in the hardware before the graph
//! forgets them.
use vstd::prelude::*;
use crate::config::{MAX_DEPENDENTS, MAX_DEVICES, MAX_IRQ_ROUTES};
use crate::devmgr::{
    behind, device, device_slot, device_vacancy, devices_wf, devices_where, first_route,
    lease_holder, lease_lapsed, leased_to, lemma_device_at, lemma_found, node_of, on_line, parent,
    ranked, routed_to, sits_below, with_device, DeviceAperture, DeviceIdentity, DeviceView,
    DevicesView, IoRange, IrqRoute, Lease, Resources,
};
use crate::error::KError;
use crate::exec::records::{lease_record, route_records, DeviceRecord, EndReason};
use crate::exec::{ExecView, Executive, MachineView, IRQ_PORT_SIGNAL};
use crate::hardware::{DmaMapper, DmaOp, InterruptRouter};
use crate::ipc::EndpointId;
use crate::lifecycle::{recorded, DriverState};
use crate::memory::{detached_from, MemoryView};
use crate::object::ObjectId;
use crate::port::{bound, port_at, ports_wf, PortId, PortView, PortsView};
use crate::process::Process;
use crate::rights::Rights;
use crate::slots;
use crate::space::Space;

verus! {

/// A DMA access the translation unit refused.
#[derive(Clone, Copy, PartialEq, Eq, Debug, Structural)]
pub struct DmaFault {
    /// The device it came from, if that could be told.
    pub device: Option<ObjectId>,
    pub address: u64,
    /// What kind of access it was.
    pub kind: u32,
}

/// What is done about a refused DMA access.
#[derive(Clone, Copy, PartialEq, Eq, Debug, Structural)]
pub enum IsolationPolicy {
    /// Nothing beyond recording it.
    Observe,
    /// The device's lease ends: it reaches nothing at all.
    EndLease,
    /// The same, and whoever held the lease is to be stopped.
    EndLeaseAndStop,
}

/// What was done about a refused DMA access.
#[derive(Clone, Copy, PartialEq, Eq, Debug, Structural)]
pub struct DmaFaultOutcome {
    /// Whether the device's lease ended.
    pub isolated: bool,
    /// Who is to be stopped, if anyone is.
    pub stop: Option<ObjectId>,
}

/// The memory table once nothing in it is reachable by `device`.
pub open spec fn forgotten(memory: MemoryView, device: ObjectId) -> MemoryView {
    MemoryView { objects: detached_from(memory.objects, device), ..memory }
}

/// The commands that end the leases of `list`.
pub open spec fn lease_ends(list: Seq<ObjectId>) -> Seq<DmaOp> {
    list.map_values(|d: ObjectId| DmaOp::EndLease(d))
}

/// The ports after the bindings of `routes` are undone, in order.
pub open spec fn unbound(ports: PortsView, routes: Seq<IrqRoute>) -> PortsView
    decreases routes.len(),
{
    if routes.len() == 0 {
        ports
    } else {
        let before = unbound(ports, routes.drop_last());
        let r = routes.last();
        match port_at(before, r.port) {
            Some(p) => before.update(
                r.port.0 as int,
                Some(p.without_binding(r.intid as u64, IRQ_PORT_SIGNAL)),
            ),
            None => before,
        }
    }
}

/// The lines of `routes`.
pub open spec fn lines(routes: Seq<IrqRoute>) -> Seq<u32> {
    routes.map_values(|r: IrqRoute| r.intid)
}

/// The routes of `id`.
pub open spec fn routes_of(t: DevicesView, id: ObjectId) -> Seq<IrqRoute> {
    match device(t, id) {
        Some(n) => n.routes,
        None => Seq::empty(),
    }
}

impl ExecView {
    /// With the resource graph replaced.
    pub open spec fn with_devices(self, devices: DevicesView) -> ExecView {
        ExecView { machine: MachineView { devices, ..self.machine }, ..self }
    }

    /// With the node of `id`, which exists, replaced.
    pub open spec fn with_node(self, id: ObjectId, n: DeviceView) -> ExecView {
        self.with_devices(with_device(self.machine.devices, id, n))
    }

    /// Without the lease of `id`, if it has one, and with every attachment to
    /// it forgotten.
    pub open spec fn lease_ended(self, id: ObjectId) -> ExecView {
        match device(self.machine.devices, id) {
            Some(n) => if n.lease is Some {
                self.with_node(id, DeviceView { lease: None, ..n }).with_memory(
                    forgotten(self.machine.memory, id),
                )
            } else {
                self
            },
            None => self,
        }
    }

    /// Without the leases of `list`, ended in order.
    pub open spec fn leases_ended(self, list: Seq<ObjectId>) -> ExecView
        decreases list.len(),
    {
        if list.len() == 0 {
            self
        } else {
            self.leases_ended(list.drop_last()).lease_ended(list.last())
        }
    }

    /// Without any interrupt route of `id`, and with the ports they went to no
    /// longer bound to their lines.
    pub open spec fn routes_ended(self, id: ObjectId) -> ExecView {
        match device(self.machine.devices, id) {
            Some(n) => self.with_node(id, DeviceView { routes: Seq::empty(), ..n }).with_ports(
                unbound(self.machine.ports, n.routes),
            ),
            None => self,
        }
    }

    /// Without the routes of the devices of `list`, ended in order.
    pub open spec fn all_routes_ended(self, list: Seq<ObjectId>) -> ExecView
        decreases list.len(),
    {
        if list.len() == 0 {
            self
        } else {
            self.all_routes_ended(list.drop_last()).routes_ended(list.last())
        }
    }

    /// The lines that ending the routes of the devices of `list` masks.
    pub open spec fn masks(self, list: Seq<ObjectId>) -> Seq<u32>
        decreases list.len(),
    {
        if list.len() == 0 {
            Seq::empty()
        } else {
            self.masks(list.drop_last()) + lines(
                routes_of(
                    self.all_routes_ended(list.drop_last()).machine.devices,
                    list.last(),
                ),
            )
        }
    }
}

impl Executive {
    /// Registers a device reached through the I/O ports `[base, base + len)`,
    /// on interrupt line `irq`.
    pub fn device_register(
        &mut self,
        id: ObjectId,
        base: u16,
        len: u16,
        irq: u8,
        rights: Rights,
    ) -> (r: Result<(), KError>)
        requires
            old(self).wf(),
        ensures
            final(self).wf(),
            registered(
                old(self)@,
                final(self)@,
                id,
                (Resources {
                    rights,
                    io: Some(IoRange { base, len, irq }),
                    window: None,
                    config: None,
                    identity: None,
                }),
                r,
            ),
    {
        self.enrol(
            id,
            Resources {
                rights,
                io: Some(IoRange { base, len, irq }),
                window: None,
                config: None,
                identity: None,
            },
        )
    }

    /// Registers a device reached through the physical register window
    /// `[base, base + len)`.
    pub fn device_register_mmio(&mut self, id: ObjectId, base: u64, len: u64, rights: Rights) -> (r:
        Result<(), KError>)
        requires
            old(self).wf(),
        ensures
            final(self).wf(),
            registered(
                old(self)@,
                final(self)@,
                id,
                (Resources {
                    rights,
                    io: None,
                    window: Some((base, len)),
                    config: None,
                    identity: None,
                }),
                r,
            ),
    {
        self.enrol(
            id,
            Resources { rights, io: None, window: Some((base, len)), config: None, identity: None },
        )
    }

    /// Registers a device the kernel enumerated and can describe.
    pub fn device_register_identified(
        &mut self,
        id: ObjectId,
        base: u64,
        len: u64,
        rights: Rights,
        identity: DeviceIdentity,
    ) -> (r: Result<(), KError>)
        requires
            old(self).wf(),
        ensures
            final(self).wf(),
            registered(
                old(self)@,
                final(self)@,
                id,
                (Resources {
                    rights,
                    io: None,
                    window: Some((base, len)),
                    config: None,
                    identity: Some(identity),
                }),
                r,
            ),
    {
        self.enrol(
            id,
            Resources {
                rights,
                io: None,
                window: Some((base, len)),
                config: None,
                identity: Some(identity),
            },
        )
    }

    /// Registers a device a bus controller declared, which may have no register
    /// window of its own.
    pub fn device_register_declared(
        &mut self,
        id: ObjectId,
        register: Option<(u64, u64)>,
        config: Option<(u64, u64)>,
        rights: Rights,
        identity: DeviceIdentity,
    ) -> (r: Result<(), KError>)
        requires
            old(self).wf(),
        ensures
            final(self).wf(),
            registered(
                old(self)@,
                final(self)@,
                id,
                (Resources { rights, io: None, window: register, config, identity: Some(identity) }),
                r,
            ),
    {
        self.enrol(
            id,
            Resources { rights, io: None, window: register, config, identity: Some(identity) },
        )
    }

    fn enrol(&mut self, id: ObjectId, resources: Resources) -> (r: Result<(), KError>)
        requires
            old(self).wf(),
        ensures
            final(self).wf(),
            registered(old(self)@, final(self)@, id, resources, r),
    {
        let r = self.machine.devices.register(id, resources);
        assert(self@ =~= old(self)@.with_devices(self.machine.devices@));
        r
    }

    /// The I/O ports of `id`: base and length.
    pub fn device_of_object(&self, id: ObjectId) -> (r: Option<(u16, u16)>)
        requires
            self.wf(),
        ensures
            r == match device(self@.machine.devices, id) {
                Some(n) => match n.resources.io {
                    Some(io) => Some((io.base, io.len)),
                    None => None,
                },
                None => None,
            },
    {
        self.machine.devices.device_of_object(id)
    }

    /// The register window of `id`, if it has one.
    pub fn mmio_of_object(&self, id: ObjectId) -> (r: Option<(u64, u64)>)
        requires
            self.wf(),
        ensures
            r == match device(self@.machine.devices, id) {
                Some(n) => n.resources.window,
                None => None,
            },
    {
        self.machine.devices.mmio_of_object(id)
    }

    /// The configuration window of `id`, if it was declared with one.
    pub fn config_of_object(&self, id: ObjectId) -> (r: Option<(u64, u64)>)
        requires
            self.wf(),
        ensures
            r == match device(self@.machine.devices, id) {
                Some(n) => n.resources.config,
                None => None,
            },
    {
        self.machine.devices.config_of_object(id)
    }

    /// What `id` is, if enumeration learned it.
    pub fn identity_of_object(&self, id: ObjectId) -> (r: Option<DeviceIdentity>)
        requires
            self.wf(),
        ensures
            r == match device(self@.machine.devices, id) {
                Some(n) => n.resources.identity,
                None => None,
            },
    {
        self.machine.devices.identity_of_object(id)
    }

    /// Whether the graph knows `id` at all. A declared device may have no
    /// registers.
    pub fn device_known(&self, id: ObjectId) -> (r: bool)
        requires
            self.wf(),
        ensures
            r == match device(self@.machine.devices, id) {
                Some(n) => true,
                None => false,
            },
    {
        self.machine.devices.contains(id)
    }

    /// The authority the graph has over `id`: what handing it out carries.
    pub fn device_rights_of_object(&self, id: ObjectId) -> (r: Option<Rights>)
        requires
            self.wf(),
        ensures
            r == match device(self@.machine.devices, id) {
                Some(n) => Some(n.resources.rights),
                None => None,
            },
    {
        self.machine.devices.rights_of_object(id)
    }

    /// Whether `id` cannot follow a scattered buffer.
    pub fn device_requires_contiguity(&self, id: ObjectId) -> (r: bool)
        requires
            self.wf(),
        ensures
            r == match device(self@.machine.devices, id) {
                Some(n) => n.contiguous,
                None => false,
            },
    {
        self.machine.devices.requires_contiguity(id)
    }

    /// The first interrupt line of `id`, if it is wired.
    pub fn intid_of_object(&self, id: ObjectId) -> (r: Option<u32>)
        requires
            self.wf(),
        ensures
            r == match device(self@.machine.devices, id) {
                Some(n) => if n.intids.len() > 0 {
                    Some(n.intids[0])
                } else {
                    None
                },
                None => None,
            },
    {
        self.machine.devices.intid_of_object(id)
    }

    /// The line [`Executive::device_route_irq`] would route for `id`.
    pub fn device_intid(&self, id: ObjectId) -> (r: Option<u32>)
        requires
            self.wf(),
        ensures
            r == match device(self@.machine.devices, id) {
                Some(n) => if n.intids.len() > 0 {
                    Some(n.intids[0])
                } else {
                    None
                },
                None => None,
            },
    {
        self.machine.devices.intid_of_object(id)
    }

    /// The device `id` sits behind, if any.
    pub fn device_parent_of(&self, id: ObjectId) -> (r: Option<ObjectId>)
        requires
            self.wf(),
        ensures
            r == parent(self@.machine.devices, id),
    {
        self.machine.devices.parent_of(id)
    }

    /// Where the interrupts of `id` go, if anywhere.
    pub fn irq_route_of_object(&self, id: ObjectId) -> (r: Option<IrqRoute>)
        requires
            self.wf(),
        ensures
            r == first_route(self@.machine.devices, id),
    {
        self.machine.devices.irq_route_of_object(id)
    }

    /// Who holds the DMA lease of `id`, if anyone does.
    pub fn lease_holder_of_object(&self, id: ObjectId) -> (r: Option<ObjectId>)
        requires
            self.wf(),
        ensures
            r == lease_holder(self@.machine.devices, id),
    {
        self.machine.devices.lease_holder_of_object(id)
    }

    /// The range `id` translates through, if it has a live lease.
    pub fn aperture_of_object(&self, id: ObjectId) -> (r: Option<DeviceAperture>)
        requires
            self.wf(),
        ensures
            r == match device(self@.machine.devices, id) {
                Some(n) => match n.lease {
                    Some(l) => Some(l.aperture),
                    None => None,
                },
                None => None,
            },
    {
        self.machine.devices.aperture_of_object(id)
    }

    /// Whether policy has stopped offering `id`.
    pub fn is_quarantined(&self, id: ObjectId) -> (r: bool)
        requires
            self.wf(),
        ensures
            r == match device(self@.machine.devices, id) {
                Some(n) => n.quarantined,
                None => false,
            },
    {
        self.machine.devices.is_quarantined(id)
    }

    /// The devices directly behind `id`, in table order.
    pub fn device_children_of(&self, id: ObjectId) -> (out: Vec<ObjectId>)
        requires
            self.wf(),
        ensures
            out@ == devices_where(self@.machine.devices, behind(id)),
    {
        self.machine.devices.children_of(id)
    }

    /// Whether `id` is `root` or sits below it: what a capability scoped to a
    /// bus controller is checked against.
    pub fn device_is_descendant_of(&self, id: ObjectId, root: ObjectId) -> (b: bool)
        requires
            self.wf(),
        ensures
            b == sits_below(self@.machine.devices, id, root),
    {
        self.machine.devices.is_descendant_of(id, root)
    }

    /// Fills `out` with the interrupt lines of `id`; returns how many were
    /// written.
    pub fn intids_of_object(&self, id: ObjectId, out: &mut [u32]) -> (n: usize)
        requires
            self.wf(),
        ensures
            final(out)@.len() == old(out)@.len(),
            ({
                let lines = match device(self@.machine.devices, id) {
                    Some(d) => d.intids,
                    None => Seq::empty(),
                };
                &&& n == if lines.len() <= old(out)@.len() {
                    lines.len()
                } else {
                    old(out)@.len()
                }
                &&& forall|i: int|
                    0 <= i < old(out)@.len() ==> #[trigger] final(out)@[i] == if i < n {
                        lines[i]
                    } else {
                        old(out)@[i]
                    }
            }),
    {
        self.machine.devices.intids_of_object(id, out)
    }

    /// The lifecycle state last declared for `device`, if any.
    pub fn lifecycle_state_of(&self, device: ObjectId) -> (r: Option<DriverState>)
        requires
            self.wf(),
        ensures
            r == recorded(self@.machine.lifecycle, device),
    {
        self.machine.lifecycle.state_of(device)
    }

    /// The lifecycle state recorded for `device`, if any.
    pub fn lifecycle_of_object(&self, device: ObjectId) -> (r: Option<DriverState>)
        requires
            self.wf(),
        ensures
            r == recorded(self@.machine.lifecycle, device),
    {
        self.machine.lifecycle.state_of(device)
    }

    /// Records the interrupt line of a device.
    pub fn device_set_mmio_irq(&mut self, id: ObjectId, intid: u32) -> (r: Result<(), KError>)
        requires
            old(self).wf(),
        ensures
            final(self).wf(),
            match device(old(self)@.machine.devices, id) {
                None => r == Err::<(), _>(KError::BadHandle) && final(self)@ == old(self)@,
                Some(n) => if n.intids.len() == MAX_IRQ_ROUTES {
                    r == Err::<(), _>(KError::LimitExceeded) && final(self)@ == old(self)@
                } else {
                    &&& r is Ok
                    &&& final(self)@ == old(self)@.with_node(
                        id,
                        DeviceView { intids: n.intids.push(intid), ..n },
                    )
                },
            },
    {
        let r = self.machine.devices.add_intid(id, intid);
        assert(self@ =~= old(self)@.with_devices(self.machine.devices@));
        r
    }

    /// Records another interrupt line of a device: one per queue of a
    /// multi-queue controller.
    pub fn device_add_mmio_irq(&mut self, id: ObjectId, intid: u32) -> (r: Result<(), KError>)
        requires
            old(self).wf(),
        ensures
            final(self).wf(),
            match device(old(self)@.machine.devices, id) {
                None => r == Err::<(), _>(KError::BadHandle) && final(self)@ == old(self)@,
                Some(n) => if n.intids.len() == MAX_IRQ_ROUTES {
                    r == Err::<(), _>(KError::LimitExceeded) && final(self)@ == old(self)@
                } else {
                    &&& r is Ok
                    &&& final(self)@ == old(self)@.with_node(
                        id,
                        DeviceView { intids: n.intids.push(intid), ..n },
                    )
                },
            },
    {
        let r = self.machine.devices.add_intid(id, intid);
        assert(self@ =~= old(self)@.with_devices(self.machine.devices@));
        r
    }

    /// Records whether `id` cannot follow a scattered buffer.
    pub fn device_set_requires_contiguity(&mut self, id: ObjectId, required: bool) -> (r: Result<
        (),
        KError,
    >)
        requires
            old(self).wf(),
        ensures
            final(self).wf(),
            match device(old(self)@.machine.devices, id) {
                None => r == Err::<(), _>(KError::BadHandle) && final(self)@ == old(self)@,
                Some(n) => {
                    &&& r is Ok
                    &&& final(self)@ == old(self)@.with_node(
                        id,
                        DeviceView { contiguous: required, ..n },
                    )
                },
            },
    {
        let r = self.machine.devices.set_requires_contiguity(id, required);
        assert(self@ =~= old(self)@.with_devices(self.machine.devices@));
        r
    }

    /// Records that `child` sits behind `to`. Both must be known, and a loop is
    /// refused.
    pub fn device_set_parent(&mut self, child: ObjectId, to: ObjectId) -> (r: Result<(), KError>)
        requires
            old(self).wf(),
        ensures
            final(self).wf(),
            ({
                let t = old(self)@.machine.devices;
                if device(t, child) is None || device(t, to) is None {
                    r == Err::<(), _>(KError::BadHandle) && final(self)@ == old(self)@
                } else if sits_below(t, to, child) {
                    r == Err::<(), _>(KError::Protocol) && final(self)@ == old(self)@
                } else {
                    &&& r is Ok
                    &&& final(self)@ == old(self)@.with_node(
                        child,
                        DeviceView { parent: Some(to), ..device(t, child)->0 },
                    )
                }
            }),
    {
        let r = self.machine.devices.set_parent(child, to);
        assert(self@ =~= old(self)@.with_devices(self.machine.devices@));
        r
    }

    /// Records the lease a device translates through, and who holds it.
    pub fn device_set_aperture(
        &mut self,
        id: ObjectId,
        holder: ObjectId,
        aperture: DeviceAperture,
        expires_at: Option<u64>,
    ) -> (r: Result<(), KError>)
        requires
            old(self).wf(),
        ensures
            final(self).wf(),
            match device(old(self)@.machine.devices, id) {
                None => r == Err::<(), _>(KError::BadHandle) && final(self)@ == old(self)@,
                Some(n) => {
                    &&& r is Ok
                    &&& final(self)@ == old(self)@.with_node(
                        id,
                        DeviceView {
                            lease: Some(Lease { holder, aperture, spent: 0, expires_at }),
                            ..n
                        },
                    )
                },
            },
    {
        let r = self.machine.devices.set_aperture(id, holder, aperture, expires_at);
        assert(self@ =~= old(self)@.with_devices(self.machine.devices@));
        r
    }

    /// Registers `endpoint` as depending on `id`.
    pub fn device_add_dependent(&mut self, id: ObjectId, endpoint: EndpointId) -> (r: Result<
        (),
        KError,
    >)
        requires
            old(self).wf(),
            endpoint.side < 2,
        ensures
            final(self).wf(),
            match device(old(self)@.machine.devices, id) {
                None => r == Err::<(), _>(KError::BadHandle) && final(self)@ == old(self)@,
                Some(n) => if n.dependents.len() == MAX_DEPENDENTS {
                    r == Err::<(), _>(KError::LimitExceeded) && final(self)@ == old(self)@
                } else {
                    &&& r is Ok
                    &&& final(self)@ == old(self)@.with_node(
                        id,
                        DeviceView { dependents: n.dependents.push(endpoint), ..n },
                    )
                },
            },
    {
        let r = self.machine.devices.add_dependent(id, endpoint);
        assert(self@ =~= old(self)@.with_devices(self.machine.devices@));
        r
    }

    /// Moves the deadline of the lease `holder` has on `id`. Answers whether it
    /// has one.
    pub fn renew_device_lease(
        &mut self,
        id: ObjectId,
        holder: ObjectId,
        expires_at: Option<u64>,
    ) -> (b: bool)
        requires
            old(self).wf(),
        ensures
            final(self).wf(),
            b == (lease_holder(old(self)@.machine.devices, id) == Some(holder)),
            final(self)@ == (if b {
                let n = device(old(self)@.machine.devices, id)->0;
                old(self)@.with_node(
                    id,
                    DeviceView { lease: Some(Lease { expires_at, ..n.lease->0 }), ..n },
                )
            } else {
                old(self)@
            }),
    {
        let b = self.machine.devices.renew_lease(id, holder, expires_at);
        assert(self@ =~= old(self)@.with_devices(self.machine.devices@));
        b
    }

    /// Takes `len` bytes from the lease of `id`, returning the address the
    /// device sees. `None` when there is no live lease or it is spent.
    pub fn device_allocate_in_aperture(&mut self, id: ObjectId, len: u64) -> (r: Option<u64>)
        requires
            old(self).wf(),
        ensures
            final(self).wf(),
            match device(old(self)@.machine.devices, id) {
                Some(n) => match n.lease {
                    Some(l) => {
                        &&& r == l.piece(len)
                        &&& final(self)@ == (if r is Some {
                            old(self)@.with_node(
                                id,
                                DeviceView { lease: Some(l.spent_more(len)), ..n },
                            )
                        } else {
                            old(self)@
                        })
                    },
                    None => r is None && final(self)@ == old(self)@,
                },
                None => r is None && final(self)@ == old(self)@,
            },
    {
        let r = self.machine.devices.allocate_in_aperture(id, len);
        assert(self@ =~= old(self)@.with_devices(self.machine.devices@));
        r
    }

    /// Stops offering `id`: it is not to be bound again. `faults` and `policy` say
    /// what that was decided on. Returns whether this changed anything, reporting
    /// it in `log` if it did.
    pub fn quarantine_device(
        &mut self,
        id: ObjectId,
        faults: u64,
        policy: u64,
        log: &mut Vec<DeviceRecord>,
    ) -> (b: bool)
        requires
            old(self).wf(),
        ensures
            final(self).wf(),
            b == (device(old(self)@.machine.devices, id) matches Some(n) && !n.quarantined),
            final(self)@ == (if b {
                old(self)@.with_node(
                    id,
                    DeviceView {
                        quarantined: true,
                        ..device(old(self)@.machine.devices, id)->0
                    },
                )
            } else {
                old(self)@
            }),
            final(log)@ == (if b {
                old(log)@.push(DeviceRecord::Quarantined { device: id, faults, policy })
            } else {
                old(log)@
            }),
    {
        let b = self.machine.devices.quarantine(id);
        assert(self@ =~= old(self)@.with_devices(self.machine.devices@));
        if b {
            log.push(DeviceRecord::Quarantined { device: id, faults, policy });
        }
        b
    }

    /// Offers a quarantined device again. Returns whether this changed anything.
    pub fn release_from_quarantine(&mut self, id: ObjectId) -> (b: bool)
        requires
            old(self).wf(),
        ensures
            final(self).wf(),
            b == (device(old(self)@.machine.devices, id) matches Some(n) && n.quarantined),
            final(self)@ == (if b {
                old(self)@.with_node(
                    id,
                    DeviceView {
                        quarantined: false,
                        ..device(old(self)@.machine.devices, id)->0
                    },
                )
            } else {
                old(self)@
            }),
    {
        let b = self.machine.devices.release_from_quarantine(id);
        assert(self@ =~= old(self)@.with_devices(self.machine.devices@));
        b
    }

    /// Forgets every attachment to `device` without unmapping: the lease is
    /// over, its translations are gone, and its range may be somebody else's.
    pub(crate) fn forget_attachments_to(&mut self, device: ObjectId)
        requires
            old(self).wf(),
        ensures
            final(self).wf(),
            final(self)@ == old(self)@.with_memory(
                forgotten(old(self)@.machine.memory, device),
            ),
    {
        self.machine.memory.forget_attachments_to(device);
        assert(self@ =~= old(self)@.with_memory(self.machine.memory@));
    }

    /// Ends the lease of `id`: the hardware first, then the record, then what
    /// was attached through it. Returns whether there was one.
    pub(crate) fn end_one_lease<M: DmaMapper>(
        &mut self,
        id: ObjectId,
        reason: EndReason,
        iommu: &mut M,
        log: &mut Vec<DeviceRecord>,
    ) -> (b: bool)
        requires
            old(self).wf(),
        ensures
            final(self).wf(),
            final(iommu).present() == old(iommu).present(),
            final(iommu).trace() == (if old(iommu).present() {
                old(iommu).trace().push(DmaOp::EndLease(id))
            } else {
                old(iommu).trace()
            }),
            b == (lease_holder(old(self)@.machine.devices, id) is Some),
            final(self)@ == old(self)@.lease_ended(id),
            final(log)@ == old(log)@ + lease_record(old(self)@.machine.devices, id, reason),
    {
        let ghost v = self@;
        if let Some(holder) = self.machine.devices.lease_holder_of_object(id) {
            log.push(DeviceRecord::LeaseEnded { device: id, holder, reason });
        }
        assert(log@ =~= old(log)@ + lease_record(v.machine.devices, id, reason));
        if iommu.is_present() {
            iommu.end_lease(id);
        }
        let ended = self.machine.devices.end_lease(id);
        assert(self@ =~= v.with_devices(self.machine.devices@));
        if ended.is_none() {
            proof {
                if let Some(n) = device(v.machine.devices, id) {
                    lemma_device_at(v.machine.devices, id);
                    assert(DeviceView { lease: None, ..n } =~= n);
                    assert(with_device(v.machine.devices, id, n) =~= v.machine.devices);
                }
                assert(self@ =~= v);
            }
            return false;
        }
        self.forget_attachments_to(id);
        true
    }

    /// Ends every lease `holder` holds, in table order. Returns how many ended.
    pub(crate) fn end_leases_of<M: DmaMapper>(
        &mut self,
        holder: ObjectId,
        iommu: &mut M,
        log: &mut Vec<DeviceRecord>,
    ) -> (n: usize)
        requires
            old(self).wf(),
        ensures
            final(self).wf(),
            final(iommu).present() == old(iommu).present(),
            ({
                let list = devices_where(old(self)@.machine.devices, leased_to(holder));
                &&& n == list.len()
                &&& final(self)@ == old(self)@.leases_ended(list)
                &&& final(log)@ == old(log)@ + old(self)@.lease_log(list, EndReason::HolderGone)
                &&& final(iommu).trace() == (if old(iommu).present() {
                    old(iommu).trace() + lease_ends(list)
                } else {
                    old(iommu).trace()
                })
            }),
    {
        let held: Vec<ObjectId> = self.machine.devices.leases_held_by(holder);
        self.end_leases(&held, EndReason::HolderGone, iommu, log);
        held.len()
    }

    /// Ends the leases of `list`, in order.
    fn end_leases<M: DmaMapper>(
        &mut self,
        list: &Vec<ObjectId>,
        reason: EndReason,
        iommu: &mut M,
        log: &mut Vec<DeviceRecord>,
    )
        requires
            old(self).wf(),
        ensures
            final(self).wf(),
            final(iommu).present() == old(iommu).present(),
            final(self)@ == old(self)@.leases_ended(list@),
            final(log)@ == old(log)@ + old(self)@.lease_log(list@, reason),
            final(iommu).trace() == (if old(iommu).present() {
                old(iommu).trace() + lease_ends(list@)
            } else {
                old(iommu).trace()
            }),
    {
        let ghost v = self@;
        let ghost before = iommu.trace();
        let ghost present = iommu.present();
        let mut i: usize = 0;
        assert(before + lease_ends(list@.take(0)) =~= before);
        assert(v.leases_ended(list@.take(0)) == v);
        assert(log@ =~= old(log)@ + v.lease_log(list@.take(0), reason));
        while i < list.len()
            invariant
                self.wf(),
                iommu.present() == present,
                i <= list@.len(),
                self@ == v.leases_ended(list@.take(i as int)),
                log@ == old(log)@ + v.lease_log(list@.take(i as int), reason),
                iommu.trace() == (if present {
                    before + lease_ends(list@.take(i as int))
                } else {
                    before
                }),
            decreases list@.len() - i,
        {
            self.end_one_lease(list[i], reason, iommu, log);
            proof {
                assert(list@.take(i + 1).drop_last() =~= list@.take(i as int));
                assert(list@.take(i + 1).last() == list@[i as int]);
                assert(lease_ends(list@.take(i + 1)) =~= lease_ends(list@.take(i as int)).push(
                    DmaOp::EndLease(list@[i as int]),
                ));
                assert(before + lease_ends(list@.take(i + 1)) =~= (before + lease_ends(
                    list@.take(i as int),
                )).push(DmaOp::EndLease(list@[i as int])));
                assert(log@ =~= old(log)@ + v.lease_log(list@.take(i + 1), reason));
            }
            i += 1;
        }
        assert(list@.take(i as int) =~= list@);
    }

    /// Ends every DMA lease `process` holds. A translation lives in the
    /// hardware and outlives the process, so this runs before its frames are
    /// given back. Returns how many leases ended. What follows on `cpu` is
    /// attributed to the freshly minted `cause`.
    pub fn end_device_leases<S: Space, M: DmaMapper>(
        &mut self,
        cpu: u32,
        process: &Process<S>,
        iommu: &mut M,
        log: &mut Vec<DeviceRecord>,
        cause: u64,
    ) -> (n: usize)
        requires
            old(self).wf(),
        ensures
            final(self).wf(),
            final(iommu).present() == old(iommu).present(),
            ({
                let list = devices_where(old(self)@.machine.devices, leased_to(process@.id));
                &&& final(log)@ == old(log)@ + old(self)@.lease_log(list, EndReason::HolderGone)
                &&& n == list.len()
                &&& final(self)@ == old(self)@.leases_ended(list).rerooted(cpu, cause)
                &&& final(iommu).trace() == (if old(iommu).present() {
                    old(iommu).trace() + lease_ends(list)
                } else {
                    old(iommu).trace()
                })
            }),
    {
        let n: usize = self.end_leases_of(process.id(), iommu, log);
        self.reroot(cpu, cause);
        n
    }

    /// Ends the lease of `id` if `holder` is the one holding it. Returns
    /// whether a lease ended.
    pub fn end_device_lease<M: DmaMapper>(
        &mut self,
        holder: ObjectId,
        id: ObjectId,
        reason: EndReason,
        iommu: &mut M,
        log: &mut Vec<DeviceRecord>,
    ) -> (b: bool)
        requires
            old(self).wf(),
        ensures
            final(self).wf(),
            final(iommu).present() == old(iommu).present(),
            b == (lease_holder(old(self)@.machine.devices, id) == Some(holder)),
            final(log)@ == (if b {
                old(log)@.push(DeviceRecord::LeaseEnded { device: id, holder, reason })
            } else {
                old(log)@
            }),
            if b {
                &&& final(self)@ == old(self)@.lease_ended(id)
                &&& final(iommu).trace() == (if old(iommu).present() {
                    old(iommu).trace().push(DmaOp::EndLease(id))
                } else {
                    old(iommu).trace()
                })
            } else {
                final(self)@ == old(self)@ && final(iommu).trace() == old(iommu).trace()
            },
    {
        match self.machine.devices.lease_holder_of_object(id) {
            Some(h) => if h == holder {
                let b: bool = self.end_one_lease(id, reason, iommu, log);
                assert(log@ =~= old(log)@.push(
                    DeviceRecord::LeaseEnded { device: id, holder, reason },
                ));
                b
            } else {
                false
            },
            None => false,
        }
    }

    /// Ends every lease whose deadline has passed, through the path a departure
    /// uses. Returns how many ended. If any did, what follows on `cpu` is
    /// attributed to the freshly minted `cause`: time began it, and no thread.
    pub fn expire_leases<M: DmaMapper>(
        &mut self,
        cpu: u32,
        now: u64,
        iommu: &mut M,
        log: &mut Vec<DeviceRecord>,
        cause: u64,
    ) -> (n: usize)
        requires
            old(self).wf(),
        ensures
            final(self).wf(),
            final(iommu).present() == old(iommu).present(),
            ({
                let list = devices_where(old(self)@.machine.devices, lease_lapsed(now));
                &&& final(log)@ == old(log)@ + old(self)@.lease_log(list, EndReason::Expired)
                &&& n == list.len()
                &&& final(self)@ == old(self)@.leases_ended(list).rerooted_if(
                    list.len() > 0,
                    cpu,
                    cause,
                )
                &&& final(iommu).trace() == (if old(iommu).present() {
                    old(iommu).trace() + lease_ends(list)
                } else {
                    old(iommu).trace()
                })
            }),
    {
        let lapsed: Vec<ObjectId> = self.machine.devices.leases_expired_by(now);
        self.end_leases(&lapsed, EndReason::Expired, iommu, log);
        if lapsed.len() > 0 {
            self.reroot(cpu, cause);
        }
        lapsed.len()
    }

    /// Applies `policy` to one refused DMA access. Isolation ends the device's
    /// lease; stopping the holder is left to the caller.
    pub fn isolate_dma_fault<M: DmaMapper>(
        &mut self,
        fault: DmaFault,
        policy: IsolationPolicy,
        iommu: &mut M,
        log: &mut Vec<DeviceRecord>,
    ) -> (o: DmaFaultOutcome)
        requires
            old(self).wf(),
        ensures
            final(self).wf(),
            final(iommu).present() == old(iommu).present(),
            ({
                let holder = match fault.device {
                    Some(d) => lease_holder(old(self)@.machine.devices, d),
                    None => None,
                };
                &&& o.isolated == (policy != IsolationPolicy::Observe && holder is Some)
                &&& o.stop == if o.isolated && policy == IsolationPolicy::EndLeaseAndStop {
                    holder
                } else {
                    None
                }
                &&& if o.isolated {
                    let id = fault.device->0;
                    &&& final(log)@ == old(log)@ + seq![
                        DeviceRecord::LeaseEnded {
                            device: id,
                            holder: holder->0,
                            reason: EndReason::FaultIsolated,
                        },
                        DeviceRecord::Isolated {
                            device: id,
                            holder: holder->0,
                            policy,
                            kind: fault.kind,
                        },
                    ]
                    &&& final(self)@ == old(self)@.lease_ended(id)
                    &&& final(iommu).trace() == (if old(iommu).present() {
                        old(iommu).trace().push(DmaOp::EndLease(id))
                    } else {
                        old(iommu).trace()
                    })
                } else {
                    &&& final(self)@ == old(self)@
                    &&& final(iommu).trace() == old(iommu).trace()
                    &&& final(log)@ == old(log)@
                }
            }),
    {
        let nothing = DmaFaultOutcome { isolated: false, stop: None };
        if policy == IsolationPolicy::Observe {
            return nothing;
        }
        let id: ObjectId = match fault.device {
            None => {
                return nothing;
            },
            Some(d) => d,
        };
        match self.machine.devices.lease_holder_of_object(id) {
            None => nothing,
            Some(holder) => {
                self.end_one_lease(id, EndReason::FaultIsolated, iommu, log);
                log.push(
                    DeviceRecord::Isolated { device: id, holder, policy, kind: fault.kind },
                );
                assert(log@ =~= old(log)@ + seq![
                    DeviceRecord::LeaseEnded {
                        device: id,
                        holder,
                        reason: EndReason::FaultIsolated,
                    },
                    DeviceRecord::Isolated { device: id, holder, policy, kind: fault.kind },
                ]);
                DmaFaultOutcome {
                    isolated: true,
                    stop: if policy == IsolationPolicy::EndLeaseAndStop {
                        Some(holder)
                    } else {
                        None
                    },
                }
            },
        }
    }

    /// Routes the first interrupt line of `id` to `port`, received by `holder`.
    /// The line comes from the graph, never from the caller.
    pub fn device_route_irq(&mut self, id: ObjectId, port: PortId, holder: ObjectId) -> (r: Result<
        (),
        KError,
    >)
        requires
            old(self).wf(),
        ensures
            final(self).wf(),
            match device(old(self)@.machine.devices, id) {
                None => r == Err::<(), _>(KError::InvalidMapping) && final(self)@ == old(self)@,
                Some(n) => if n.intids.len() == 0 {
                    r == Err::<(), _>(KError::InvalidMapping) && final(self)@ == old(self)@
                } else {
                    line_routed(old(self)@, final(self)@, id, n.intids[0], port, holder, r)
                },
            },
    {
        match self.machine.devices.intid_of_object(id) {
            None => Err(KError::InvalidMapping),
            Some(intid) => self.device_route_irq_line(id, intid, port, holder),
        }
    }

    /// Routes the line `intid` of `id` to `port`, received by `holder`: records
    /// the route and binds the port to the line. A port that cannot be bound
    /// leaves the route recorded.
    pub fn device_route_irq_line(
        &mut self,
        id: ObjectId,
        intid: u32,
        port: PortId,
        holder: ObjectId,
    ) -> (r: Result<(), KError>)
        requires
            old(self).wf(),
        ensures
            final(self).wf(),
            line_routed(old(self)@, final(self)@, id, intid, port, holder, r),
    {
        let ghost v = self@;
        let routed = self.machine.devices.route_irq_line(id, intid, port, holder);
        assert(self@ =~= v.with_devices(self.machine.devices@));
        match routed {
            Err(e) => {
                assert(self@ =~= v);
                Err(e)
            },
            Ok(_) => self.port_bind(port, intid as u64, IRQ_PORT_SIGNAL),
        }
    }

    /// Ends every route of `id`: the hardware first, then the port binding,
    /// then the record. Returns whether there was one.
    pub(crate) fn end_one_irq_route<R: InterruptRouter>(
        &mut self,
        id: ObjectId,
        reason: EndReason,
        irqs: &mut R,
        log: &mut Vec<DeviceRecord>,
    ) -> (b: bool)
        requires
            old(self).wf(),
        ensures
            final(self).wf(),
            final(irqs).present() == old(irqs).present(),
            b == (routes_of(old(self)@.machine.devices, id).len() > 0),
            final(log)@ == old(log)@ + route_records(
                routes_of(old(self)@.machine.devices, id),
                id,
                reason,
            ),
            final(self)@ == old(self)@.routes_ended(id),
            final(irqs).masked() == (if old(irqs).present() {
                old(irqs).masked() + lines(routes_of(old(self)@.machine.devices, id))
            } else {
                old(irqs).masked()
            }),
    {
        let ghost v = self@;
        let ghost t = v.machine.devices;
        let ghost before = irqs.masked();
        let ghost present = irqs.present();
        let ghost routes = routes_of(t, id);
        let ghost mut k: int = 0;
        let mut ended: bool = false;
        proof {
            if let Some(n) = device(t, id) {
                lemma_device_at(t, id);
                assert(DeviceView { routes: n.routes.skip(0), ..n } =~= n);
                assert(with_device(t, id, n) =~= t);
            }
            assert(unbound(v.machine.ports, routes.take(0)) == v.machine.ports);
            assert(v.with_devices(t).with_ports(v.machine.ports) =~= v);
            assert(before + lines(routes.take(0)) =~= before);
            assert(log@ =~= old(log)@ + route_records(routes.take(0), id, reason));
        }
        loop
            invariant
                self.wf(),
                log@ == old(log)@ + route_records(routes.take(k), id, reason),
                irqs.present() == present,
                present == old(irqs).present(),
                before == old(irqs).masked(),
                v == old(self)@,
                t == v.machine.devices,
                devices_wf(t),
                routes == routes_of(t, id),
                0 <= k <= routes.len(),
                ended == (k > 0),
                self@ == v.with_devices(self@.machine.devices).with_ports(
                    unbound(v.machine.ports, routes.take(k)),
                ),
                self@.machine.devices == (match device(t, id) {
                    Some(n) => with_device(t, id, DeviceView { routes: n.routes.skip(k), ..n }),
                    None => t,
                }),
                irqs.masked() == (if present {
                    before + lines(routes.take(k))
                } else {
                    before
                }),
            decreases routes.len() - k,
        {
            let ghost w = self@;
            proof {
                if let Some(n) = device(t, id) {
                    lemma_device_at(t, id);
                    slots::lemma_first_is(
                        w.machine.devices,
                        node_of(id),
                        device_slot(t, id),
                    );
                    assert(device(w.machine.devices, id) == Some(
                        DeviceView { routes: n.routes.skip(k), ..n },
                    ));
                }
            }
            match self.machine.devices.end_irq_route(id) {
                None => {
                    proof {
                        assert(routes.take(k) =~= routes);
                        assert(self@ =~= w);
                        if let Some(n) = device(t, id) {
                            assert(n.routes.skip(k) =~= Seq::empty());
                        }
                        assert(self@ =~= v.routes_ended(id));
                    }
                    return ended;
                },
                Some(route) => {
                    assert(self@ =~= w.with_devices(self.machine.devices@));
                    log.push(
                        DeviceRecord::RouteEnded {
                            device: id,
                            intid: route.intid,
                            holder: route.holder,
                            reason,
                        },
                    );
                    if irqs.is_present() {
                        irqs.mask(route.intid);
                    }
                    if let Some(p) = self.machine.ports.port_mut(route.port) {
                        p.unbind(route.intid as u64, IRQ_PORT_SIGNAL);
                    }
                    proof {
                        let n = device(t, id)->0;
                        assert(n.routes.skip(k).drop_first() =~= n.routes.skip(k + 1));
                        assert(n.routes.skip(k)[0] == routes[k]);
                        assert(routes.take(k + 1).drop_last() =~= routes.take(k));
                        assert(routes.take(k + 1).last() == route);
                        assert(self.machine.ports@ =~= unbound(
                            v.machine.ports,
                            routes.take(k + 1),
                        ));
                        assert(self@ =~= v.with_devices(self.machine.devices@).with_ports(
                            self.machine.ports@,
                        ));
                        assert(self.machine.devices@ =~= with_device(
                            t,
                            id,
                            DeviceView { routes: n.routes.skip(k + 1), ..n },
                        ));
                        assert(before + lines(routes.take(k + 1)) =~= (before + lines(
                            routes.take(k),
                        )).push(route.intid));
                        assert(log@ =~= old(log)@ + route_records(
                            routes.take(k + 1),
                            id,
                            reason,
                        ));
                        k = k + 1;
                    }
                    ended = true;
                },
            }
        }
    }

    /// Ends every route of every device `holder` receives an interrupt of, in
    /// table order. Returns how many devices that was.
    pub(crate) fn end_irq_routes_of<R: InterruptRouter>(
        &mut self,
        holder: ObjectId,
        irqs: &mut R,
        log: &mut Vec<DeviceRecord>,
    ) -> (n: usize)
        requires
            old(self).wf(),
        ensures
            final(self).wf(),
            final(irqs).present() == old(irqs).present(),
            ({
                let list = devices_where(old(self)@.machine.devices, routed_to(holder));
                &&& final(log)@ == old(log)@ + old(self)@.route_log(list, EndReason::HolderGone)
                &&& n == list.len()
                &&& final(self)@ == old(self)@.all_routes_ended(list)
                &&& final(irqs).masked() == (if old(irqs).present() {
                    old(irqs).masked() + old(self)@.masks(list)
                } else {
                    old(irqs).masked()
                })
            }),
    {
        let ghost v = self@;
        let ghost before = irqs.masked();
        let ghost present = irqs.present();
        let held: Vec<ObjectId> = self.machine.devices.irq_routes_held_by(holder);
        let mut i: usize = 0;
        assert(before + v.masks(held@.take(0)) =~= before);
        assert(log@ =~= old(log)@ + v.route_log(held@.take(0), EndReason::HolderGone));
        while i < held.len()
            invariant
                self.wf(),
                irqs.present() == present,
                i <= held@.len(),
                self@ == v.all_routes_ended(held@.take(i as int)),
                log@ == old(log)@ + v.route_log(held@.take(i as int), EndReason::HolderGone),
                irqs.masked() == (if present {
                    before + v.masks(held@.take(i as int))
                } else {
                    before
                }),
            decreases held@.len() - i,
        {
            self.end_one_irq_route(held[i], EndReason::HolderGone, irqs, log);
            proof {
                assert(held@.take(i + 1).drop_last() =~= held@.take(i as int));
                assert(held@.take(i + 1).last() == held@[i as int]);
                assert(before + v.masks(held@.take(i + 1)) =~= irqs.masked() || !present);
                assert(log@ =~= old(log)@ + v.route_log(
                    held@.take(i + 1),
                    EndReason::HolderGone,
                ));
            }
            i += 1;
        }
        assert(held@.take(i as int) =~= held@);
        held.len()
    }

    /// Ends every route of every device `process` receives an interrupt of.
    /// Routes live in the interrupt controller and the port table, and both
    /// outlive the process. If there was one, what follows on `cpu` is
    /// attributed to the freshly minted `cause`.
    pub fn end_device_irq_routes<S: Space, R: InterruptRouter>(
        &mut self,
        cpu: u32,
        process: &Process<S>,
        irqs: &mut R,
        log: &mut Vec<DeviceRecord>,
        cause: u64,
    ) -> (n: usize)
        requires
            old(self).wf(),
        ensures
            final(self).wf(),
            final(irqs).present() == old(irqs).present(),
            ({
                let list = devices_where(old(self)@.machine.devices, routed_to(process@.id));
                &&& final(log)@ == old(log)@ + old(self)@.route_log(list, EndReason::HolderGone)
                &&& n == list.len()
                &&& final(self)@ == old(self)@.all_routes_ended(list).rerooted_if(
                    list.len() > 0,
                    cpu,
                    cause,
                )
                &&& final(irqs).masked() == (if old(irqs).present() {
                    old(irqs).masked() + old(self)@.masks(list)
                } else {
                    old(irqs).masked()
                })
            }),
    {
        let n: usize = self.end_irq_routes_of(process.id(), irqs, log);
        if n > 0 {
            self.reroot(cpu, cause);
        }
        n
    }

    /// Ends the routes of `id` if `holder` is the one receiving it. Returns
    /// whether a route ended.
    pub fn end_device_irq_route<R: InterruptRouter>(
        &mut self,
        holder: ObjectId,
        id: ObjectId,
        reason: EndReason,
        irqs: &mut R,
        log: &mut Vec<DeviceRecord>,
    ) -> (b: bool)
        requires
            old(self).wf(),
        ensures
            final(self).wf(),
            final(irqs).present() == old(irqs).present(),
            b == (first_route(old(self)@.machine.devices, id) matches Some(r) && r.holder
                == holder),
            final(log)@ == (if b {
                old(log)@ + route_records(
                    routes_of(old(self)@.machine.devices, id),
                    id,
                    reason,
                )
            } else {
                old(log)@
            }),
            if b {
                &&& final(self)@ == old(self)@.routes_ended(id)
                &&& final(irqs).masked() == (if old(irqs).present() {
                    old(irqs).masked() + lines(routes_of(old(self)@.machine.devices, id))
                } else {
                    old(irqs).masked()
                })
            } else {
                final(self)@ == old(self)@ && final(irqs).masked() == old(irqs).masked()
            },
    {
        match self.machine.devices.irq_route_of_object(id) {
            None => false,
            Some(r) => if r.holder == holder {
                self.end_one_irq_route(id, reason, irqs, log)
            } else {
                false
            },
        }
    }
}

/// What registering a device comes to.
pub open spec fn registered(
    v: ExecView,
    w: ExecView,
    id: ObjectId,
    resources: Resources,
    r: Result<(), KError>,
) -> bool {
    let t = v.machine.devices;
    match r {
        Ok(_) => {
            &&& device(t, id) is None
            &&& device_vacancy(t) < MAX_DEVICES
            &&& w == v.with_devices(
                t.update(device_vacancy(t), Some(DeviceView::fresh(id, resources))),
            )
        },
        Err(e) => {
            &&& w == v
            &&& if device(t, id) is Some {
                e == KError::AlreadyMapped
            } else {
                e == KError::OutOfMemory && device_vacancy(t) == MAX_DEVICES
            }
        },
    }
}

/// What routing a line comes to.
pub open spec fn line_routed(
    v: ExecView,
    w: ExecView,
    id: ObjectId,
    intid: u32,
    port: PortId,
    holder: ObjectId,
    r: Result<(), KError>,
) -> bool {
    match device(v.machine.devices, id) {
        None => r == Err::<(), _>(KError::BadHandle) && w == v,
        Some(n) => if !n.intids.contains(intid) {
            r == Err::<(), _>(KError::InvalidMapping) && w == v
        } else if slots::any(n.routes, on_line(intid)) {
            r == Err::<(), _>(KError::AlreadyMapped) && w == v
        } else if n.routes.len() == MAX_IRQ_ROUTES {
            r == Err::<(), _>(KError::LimitExceeded) && w == v
        } else {
            let routed = v.with_node(
                id,
                DeviceView { routes: n.routes.push(IrqRoute { intid, port, holder }), ..n },
            );
            match port_at(v.machine.ports, port) {
                None => r == Err::<(), _>(KError::BadHandle) && w == routed,
                Some(p) => if p.listens(intid as u64, IRQ_PORT_SIGNAL) {
                    r == Err::<(), _>(KError::Protocol) && w == routed
                } else if p.vacancy() == p.bindings.len() {
                    r == Err::<(), _>(KError::OutOfMemory) && w == routed
                } else {
                    &&& r is Ok
                    &&& w == routed.with_port(
                        port,
                        p.with_binding(intid as u64, IRQ_PORT_SIGNAL),
                    )
                },
            }
        },
    }
}

/// Whether two graphs have the same devices in the same places, behind the
/// same parents.
pub open spec fn same_shape(t: DevicesView, u: DevicesView) -> bool {
    &&& t.len() == u.len()
    &&& forall|i: int|
        0 <= i < t.len() ==> ((#[trigger] u[i]) is Some == t[i] is Some) && (t[i] is Some
            ==> u[i]->0.object == t[i]->0.object && u[i]->0.parent == t[i]->0.parent)
}

/// Every listed device has its predicate, and every device that has it is
/// listed.
pub proof fn lemma_listed(t: DevicesView, p: spec_fn(DeviceView) -> bool, i: int)
    requires
        0 <= i < t.len(),
        t[i] is Some,
        p(t[i]->0),
    ensures
        devices_where(t, p).contains(t[i]->0.object),
    decreases t.len(),
{
    let before = devices_where(t.drop_last(), p);
    let all = devices_where(t, p);
    if i == t.len() - 1 {
        assert(all[all.len() - 1] == t[i]->0.object);
    } else {
        assert(t.drop_last()[i] == t[i]);
        lemma_listed(t.drop_last(), p, i);
        let k = choose|k: int| 0 <= k < before.len() && before[k] == t[i]->0.object;
        assert(all[k] == t[i]->0.object);
    }
}

/// The graph without the leases of `list`.
pub open spec fn unleased(t: DevicesView, list: Seq<ObjectId>) -> DevicesView {
    Seq::new(
        t.len(),
        |i: int|
            match t[i] {
                Some(n) => if list.contains(n.object) {
                    Some(DeviceView { lease: None, ..n })
                } else {
                    Some(n)
                },
                None => None,
            },
    )
}

/// The graph without the routes of the devices of `list`.
pub open spec fn unrouted(t: DevicesView, list: Seq<ObjectId>) -> DevicesView {
    Seq::new(
        t.len(),
        |i: int|
            match t[i] {
                Some(n) => if list.contains(n.object) {
                    Some(DeviceView { routes: Seq::empty(), ..n })
                } else {
                    Some(n)
                },
                None => None,
            },
    )
}

/// Changing nodes without moving them keeps the graph sound.
pub proof fn lemma_same_shape(t: DevicesView, u: DevicesView)
    requires
        devices_wf(t),
        same_shape(t, u),
        forall|i: int| 0 <= i < MAX_DEVICES ==> ((#[trigger] u[i]) matches Some(n) ==> n.wf()),
    ensures
        devices_wf(u),
        forall|id: ObjectId| #[trigger] device_slot(u, id) == device_slot(t, id),
{
    assert forall|a: int, b: int|
        0 <= a < b < MAX_DEVICES && (#[trigger] u[a]) is Some && (#[trigger] u[b]) is Some implies u[a]->0.object
        != u[b]->0.object by {
        assert(t[a] is Some && t[b] is Some);
    }
    let rank = choose|rank: spec_fn(ObjectId) -> nat| #[trigger] ranked(t, rank);
    assert forall|i: int|
        0 <= i < u.len() && (#[trigger] u[i]) is Some && u[i]->0.parent is Some implies rank(
        u[i]->0.parent->0,
    ) < rank(u[i]->0.object) by {
        assert(t[i] is Some);
    }
    assert(ranked(u, rank));
    assert forall|id: ObjectId| #[trigger] device_slot(u, id) == device_slot(t, id) by {
        let p = node_of(id);
        slots::lemma_first(t, p);
        assert forall|j: int| 0 <= j < t.len() implies p(#[trigger] u[j]) == p(t[j]) by {}
        slots::lemma_first_is(u, p, slots::first(t, p));
    }
}

/// What ending leases does to the graph.
pub proof fn lemma_leases_ended(v: ExecView, list: Seq<ObjectId>)
    requires
        devices_wf(v.machine.devices),
    ensures
        v.leases_ended(list).machine.devices == unleased(v.machine.devices, list),
        same_shape(v.machine.devices, v.leases_ended(list).machine.devices),
        devices_wf(v.leases_ended(list).machine.devices),
    decreases list.len(),
{
    let t = v.machine.devices;
    if list.len() == 0 {
        assert(unleased(t, list) =~= t);
    } else {
        let shorter = list.drop_last();
        let id = list.last();
        lemma_leases_ended(v, shorter);
        let u = unleased(t, shorter);
        let w = v.leases_ended(list).machine.devices;
        assert(list =~= shorter.push(id));
        assert forall|x: ObjectId| list.contains(x) == (shorter.contains(x) || x == id) by {
            assert(list[list.len() - 1] == id);
            if shorter.contains(x) {
                let k = choose|k: int| 0 <= k < shorter.len() && shorter[k] == x;
                assert(list[k] == x);
            }
        }
        lemma_same_shape(t, u);
        if device(u, id) is Some {
            lemma_device_at(u, id);
        }
        assert forall|i: int| 0 <= i < t.len() implies #[trigger] w[i] == unleased(
            t,
            list,
        )[i] by {
            if let Some(n) = u[i] {
                lemma_found(u, i);
                if n.object == id {
                    assert(DeviceView { lease: None, ..n } =~= unleased(t, list)[i]->0);
                }
            }
        }
        assert(w.len() == t.len());
        assert(unleased(t, list).len() == t.len());
        assert(w =~= unleased(t, list));
        lemma_same_shape(t, w);
    }
}

/// What ending routes does to the graph.
pub proof fn lemma_all_routes_ended(v: ExecView, list: Seq<ObjectId>)
    requires
        devices_wf(v.machine.devices),
    ensures
        v.all_routes_ended(list).machine.devices == unrouted(v.machine.devices, list),
        same_shape(v.machine.devices, v.all_routes_ended(list).machine.devices),
        devices_wf(v.all_routes_ended(list).machine.devices),
    decreases list.len(),
{
    let t = v.machine.devices;
    if list.len() == 0 {
        assert(unrouted(t, list) =~= t);
    } else {
        let shorter = list.drop_last();
        let id = list.last();
        lemma_all_routes_ended(v, shorter);
        let u = unrouted(t, shorter);
        let w = v.all_routes_ended(list).machine.devices;
        assert(list =~= shorter.push(id));
        assert forall|x: ObjectId| list.contains(x) == (shorter.contains(x) || x == id) by {
            assert(list[list.len() - 1] == id);
            if shorter.contains(x) {
                let k = choose|k: int| 0 <= k < shorter.len() && shorter[k] == x;
                assert(list[k] == x);
            }
        }
        lemma_same_shape(t, u);
        if device(u, id) is Some {
            lemma_device_at(u, id);
        }
        assert forall|i: int| 0 <= i < t.len() implies #[trigger] w[i] == unrouted(
            t,
            list,
        )[i] by {
            if let Some(n) = u[i] {
                lemma_found(u, i);
                if n.object == id {
                    assert(DeviceView { routes: Seq::empty(), ..n } =~= unrouted(t, list)[i]->0);
                }
            }
        }
        assert(w.len() == t.len());
        assert(unrouted(t, list).len() == t.len());
        assert(w =~= unrouted(t, list));
        lemma_same_shape(t, w);
    }
}

/// Once the leases of a holder have ended, no device translates for it.
pub proof fn law_departed_holder_has_no_lease(v: ExecView, holder: ObjectId, id: ObjectId)
    requires
        devices_wf(v.machine.devices),
    ensures
        lease_holder(
            v.leases_ended(devices_where(v.machine.devices, leased_to(holder))).machine.devices,
            id,
        ) != Some(holder),
{
    let t = v.machine.devices;
    let list = devices_where(t, leased_to(holder));
    lemma_leases_ended(v, list);
    let u = v.leases_ended(list).machine.devices;
    if device(u, id) is Some {
        lemma_device_at(u, id);
        let i = device_slot(u, id);
        assert(t[i] is Some);
        if leased_to(holder)(t[i]->0) {
            lemma_listed(t, leased_to(holder), i);
        }
    }
}

/// Once the routes of a holder have ended, no device interrupts it.
pub proof fn law_departed_holder_receives_nothing(v: ExecView, holder: ObjectId, id: ObjectId)
    requires
        devices_wf(v.machine.devices),
    ensures
        device(
            v.all_routes_ended(
                devices_where(v.machine.devices, routed_to(holder)),
            ).machine.devices,
            id,
        ) matches Some(n) ==> !routed_to(holder)(n),
{
    let t = v.machine.devices;
    let list = devices_where(t, routed_to(holder));
    lemma_all_routes_ended(v, list);
    let u = v.all_routes_ended(list).machine.devices;
    if device(u, id) is Some {
        lemma_device_at(u, id);
        let i = device_slot(u, id);
        assert(t[i] is Some);
        if routed_to(holder)(t[i]->0) {
            lemma_listed(t, routed_to(holder), i);
        }
    }
}

/// A lease that has ended leaves no memory object reachable by its device.
pub proof fn law_ended_lease_reaches_nothing(v: ExecView, id: ObjectId, i: int)
    requires
        lease_holder(v.machine.devices, id) is Some,
        0 <= i < v.machine.memory.objects.len(),
    ensures
        v.lease_ended(id).machine.memory.objects[i] matches Some(o) ==> (
        o.attached matches Some(a) ==> a.device != id),
{
}

/// Releasing one binding silences it and gives no other.
proof fn lemma_released(p: PortView, source: u64, signal: u8, source2: u64, signal2: u8)
    requires
        p.wf(),
    ensures
        p.without_binding(source, signal).wf(),
        !p.without_binding(source, signal).listens(source, signal),
        p.without_binding(source, signal).listens(source2, signal2) ==> p.listens(
            source2,
            signal2,
        ),
{
    let q = p.without_binding(source, signal);
    slots::lemma_first(p.bindings, bound(source, signal));
    slots::lemma_first(q.bindings, bound(source, signal));
    slots::lemma_first(p.bindings, bound(source2, signal2));
    slots::lemma_first(q.bindings, bound(source2, signal2));
    let at = p.slot(source, signal);
    if q.listens(source, signal) {
        let k = q.slot(source, signal);
        assert(q.bindings[k] is Some);
        assert(p.bindings[k] is Some && p.bindings[at] is Some);
    }
    if q.listens(source2, signal2) {
        let k = q.slot(source2, signal2);
        assert(bound(source2, signal2)(p.bindings[k]));
    }
}

/// Undoing routes keeps the ports sound and silences every line undone.
proof fn lemma_unbound(ports: PortsView, routes: Seq<IrqRoute>, k: int)
    requires
        ports_wf(ports),
        0 <= k < routes.len(),
    ensures
        ports_wf(unbound(ports, routes)),
        port_at(unbound(ports, routes), routes[k].port) matches Some(p) ==> !p.listens(
            routes[k].intid as u64,
            IRQ_PORT_SIGNAL,
        ),
    decreases routes.len(),
{
    let shorter = routes.drop_last();
    let before = unbound(ports, shorter);
    let r = routes.last();
    if shorter.len() > 0 {
        lemma_unbound(
            ports,
            shorter,
            if k < shorter.len() {
                k
            } else {
                0
            },
        );
    }
    if let Some(p) = port_at(before, r.port) {
        lemma_released(
            p,
            r.intid as u64,
            IRQ_PORT_SIGNAL,
            routes[k].intid as u64,
            IRQ_PORT_SIGNAL,
        );
    }
}

/// A route that has ended delivers nothing: the port it went to no longer
/// listens to its line.
pub proof fn law_an_ended_route_is_silent(v: ExecView, id: ObjectId, k: int)
    requires
        ports_wf(v.machine.ports),
        0 <= k < routes_of(v.machine.devices, id).len(),
    ensures
        ({
            let r = routes_of(v.machine.devices, id)[k];
            port_at(v.routes_ended(id).machine.ports, r.port) matches Some(p) ==> !p.listens(
                r.intid as u64,
                IRQ_PORT_SIGNAL,
            )
        }),
{
    lemma_unbound(v.machine.ports, routes_of(v.machine.devices, id), k);
}

/// A registered device is found with the resources it was registered with and
/// nothing else, every device registered before is as it was, and an id is
/// registered once.
pub proof fn law_a_registered_device_is_found(
    v: ExecView,
    w: ExecView,
    id: ObjectId,
    resources: Resources,
    r: Result<(), KError>,
    other: ObjectId,
)
    requires
        devices_wf(v.machine.devices),
        registered(v, w, id, resources, r),
        other != id,
    ensures
        r is Ok ==> {
            &&& device(w.machine.devices, id) matches Some(n)
            &&& n.object == id
            &&& n.resources.rights == resources.rights
            &&& n.resources.io == resources.io
            &&& n.resources.window == resources.window
            &&& n.resources.config == resources.config
            &&& n.resources.identity == resources.identity
            &&& n.parent is None && n.lease is None && n.routes.len() == 0 && n.intids.len() == 0
            &&& !n.quarantined && !n.wake_armed
        },
        device(w.machine.devices, other) == device(v.machine.devices, other),
        device(v.machine.devices, id) is Some ==> r == Err::<(), _>(KError::AlreadyMapped),
        device(v.machine.devices, id) is None && r is Err ==> r == Err::<(), _>(
            KError::OutOfMemory,
        ) && forall|k: int| 0 <= k < MAX_DEVICES ==> #[trigger] v.machine.devices[k] is Some,
        r is Err ==> w == v,
{
    let t = v.machine.devices;
    let u = w.machine.devices;
    crate::devmgr::law_a_device_is_found_by_its_id(t, id);
    crate::devmgr::law_a_device_is_found_by_its_id(t, other);
    if r is Ok {
        let at = device_vacancy(t);
        slots::lemma_first(t, slots::free::<DeviceView>());
        slots::lemma_first(t, crate::devmgr::node_of(id));
        slots::lemma_first(t, crate::devmgr::node_of(other));
        assert forall|k: int| 0 <= k < at implies !crate::devmgr::node_of(id)(#[trigger] u[k]) by {
            assert(!crate::devmgr::node_of(id)(t[k]));
        }
        slots::lemma_first_is(u, crate::devmgr::node_of(id), at);
        let j = device_slot(t, other);
        assert forall|k: int| 0 <= k < j implies !crate::devmgr::node_of(other)(
            #[trigger] u[k],
        ) by {
            if k != at {
                assert(!crate::devmgr::node_of(other)(t[k]));
            }
        }
        slots::lemma_first_is(u, crate::devmgr::node_of(other), j);
    }
}

/// A routed line interrupts whom it was routed to: the route names the line, the
/// port and the holder, and the port listens for it. A line the device does not
/// have, or that is routed already, is refused.
pub proof fn law_a_routed_line_reaches_its_port(
    v: ExecView,
    w: ExecView,
    id: ObjectId,
    intid: u32,
    port: PortId,
    holder: ObjectId,
    r: Result<(), KError>,
    other: ObjectId,
)
    requires
        devices_wf(v.machine.devices),
        ports_wf(v.machine.ports),
        line_routed(v, w, id, intid, port, holder, r),
        other != id,
    ensures
        r is Ok ==> {
            &&& device(v.machine.devices, id) matches Some(n)
            &&& device(w.machine.devices, id) matches Some(m)
            &&& m.routes.len() == n.routes.len() + 1
            &&& m.routes.last().intid == intid
            &&& m.routes.last().port == port
            &&& m.routes.last().holder == holder
            &&& forall|k: int|
                0 <= k < n.routes.len() ==> (#[trigger] m.routes[k] == n.routes[k]
                    && n.routes[k].intid != intid)
            &&& n.intids.contains(intid)
            &&& m.lease == n.lease && m.intids == n.intids && m.parent == n.parent
            &&& port_at(w.machine.ports, port) matches Some(p)
            &&& exists|k: int|
                0 <= k < p.bindings.len() && (#[trigger] p.bindings[k] matches Some(b) && b.source
                    == intid && b.signal == IRQ_PORT_SIGNAL && !b.asserted)
        },
        device(w.machine.devices, other) == device(v.machine.devices, other),
        device(v.machine.devices, id) is None ==> r == Err::<(), _>(KError::BadHandle),
        device(v.machine.devices, id) matches Some(n) ==> {
            &&& !n.intids.contains(intid) ==> r == Err::<(), _>(KError::InvalidMapping) && w == v
            &&& n.intids.contains(intid) && (exists|k: int|
                0 <= k < n.routes.len() && (#[trigger] n.routes[k]).intid == intid) ==> r == Err::<
                (),
                _,
            >(KError::AlreadyMapped) && w == v
        },
{
    let t = v.machine.devices;
    crate::devmgr::law_a_device_is_found_by_its_id(t, id);
    if let Some(n) = device(t, id) {
        let m = DeviceView { routes: n.routes.push(IrqRoute { intid, port, holder }), ..n };
        crate::devmgr::law_a_changed_device_is_the_only_one(t, id, m, other);
        if exists|k: int| 0 <= k < n.routes.len() && (#[trigger] n.routes[k]).intid == intid {
            let k = choose|k: int| 0 <= k < n.routes.len() && (#[trigger] n.routes[k]).intid == intid;
            assert(on_line(intid)(n.routes[k]));
        }
        if r is Ok {
            assert forall|k: int| 0 <= k < n.routes.len() implies (#[trigger] m.routes[k]
                == n.routes[k] && n.routes[k].intid != intid) by {
                assert(!on_line(intid)(n.routes[k]));
            }
            let p = port_at(v.machine.ports, port)->0;
            assert(v.machine.ports[port.0 as int] == Some(p));
            slots::lemma_first(p.bindings, slots::free::<crate::port::Binding>());
            let q = p.with_binding(intid as u64, IRQ_PORT_SIGNAL);
            assert(port_at(w.machine.ports, port) == Some(q));
            assert(q.bindings[p.vacancy()] matches Some(b) && b.source == intid);
        }
    }
}

/// A lease that ends ends for its device alone: no other device loses its own,
/// and no object another device reaches is let go.
pub proof fn law_a_lease_ends_for_one_device(v: ExecView, id: ObjectId, other: ObjectId, i: int)
    requires
        devices_wf(v.machine.devices),
        other != id,
    ensures
        device(v.lease_ended(id).machine.devices, other) == device(v.machine.devices, other),
        device(v.machine.devices, id) matches Some(n) ==> (device(
            v.lease_ended(id).machine.devices,
            id,
        ) matches Some(m) && m.lease is None && m.routes == n.routes && m.intids == n.intids
            && m.parent == n.parent && m.resources == n.resources && m.quarantined
            == n.quarantined && m.dependents == n.dependents && m.wake_armed == n.wake_armed),
        0 <= i < v.machine.memory.objects.len() ==> (v.machine.memory.objects[i] matches Some(o) ==> (
        !(o.attached matches Some(a) && a.device == id) ==> v.lease_ended(
            id,
        ).machine.memory.objects[i] == Some(o))),
        lease_holder(v.machine.devices, id) is None ==> v.lease_ended(id) == v,
        v.lease_ended(id).machine.ports == v.machine.ports,
        v.lease_ended(id).machine.channels == v.machine.channels,
{
    let t = v.machine.devices;
    crate::devmgr::law_a_device_is_found_by_its_id(t, id);
    if let Some(n) = device(t, id) {
        crate::devmgr::law_a_changed_device_is_the_only_one(
            t,
            id,
            DeviceView { lease: None, ..n },
            other,
        );
    }
}

/// Ending a device's routes ends all of them and no other device's; its lines
/// and its lease stay.
pub proof fn law_routes_end_for_one_device(v: ExecView, id: ObjectId, other: ObjectId)
    requires
        devices_wf(v.machine.devices),
        other != id,
    ensures
        device(v.routes_ended(id).machine.devices, other) == device(v.machine.devices, other),
        device(v.machine.devices, id) matches Some(n) ==> (device(
            v.routes_ended(id).machine.devices,
            id,
        ) matches Some(m) && m.routes.len() == 0 && m.lease == n.lease && m.intids == n.intids
            && m.parent == n.parent && m.dependents == n.dependents && m.resources == n.resources),
        device(v.machine.devices, id) is None ==> v.routes_ended(id) == v,
        v.routes_ended(id).machine.memory == v.machine.memory,
        v.routes_ended(id).machine.channels == v.machine.channels,
{
    let t = v.machine.devices;
    crate::devmgr::law_a_device_is_found_by_its_id(t, id);
    if let Some(n) = device(t, id) {
        crate::devmgr::law_a_changed_device_is_the_only_one(
            t,
            id,
            DeviceView { routes: Seq::empty(), ..n },
            other,
        );
    }
}

/// Undoing routes takes the bindings of their lines and no other binding.
pub proof fn law_undoing_routes_takes_their_bindings(
    ports: PortsView,
    routes: Seq<IrqRoute>,
    i: int,
    k: int,
)
    requires
        ports_wf(ports),
        0 <= i < ports.len(),
        ports[i] is Some,
        0 <= k < ports[i]->0.bindings.len(),
        ports[i]->0.bindings[k] matches Some(b) ==> b.signal != IRQ_PORT_SIGNAL || forall|j: int|
            0 <= j < routes.len() ==> (#[trigger] routes[j]).intid != b.source || routes[j].port.0
                != i,
    ensures
        ports_wf(unbound(ports, routes)),
        unbound(ports, routes)[i] matches Some(q) && q.bindings.len() == ports[i]->0.bindings.len()
            && q.bindings[k] == ports[i]->0.bindings[k] && q.blocked_drainer
            == ports[i]->0.blocked_drainer && q.object == ports[i]->0.object,
    decreases routes.len(),
{
    if routes.len() > 0 {
        let shorter = routes.drop_last();
        let r = routes.last();
        assert forall|j: int| 0 <= j < shorter.len() implies #[trigger] shorter[j] == routes[j] by {}
        law_undoing_routes_takes_their_bindings(ports, shorter, i, k);
        let before = unbound(ports, shorter);
        if let Some(p) = port_at(before, r.port) {
            crate::port::law_binding_and_unbinding_are_local(p, r.intid as u64, IRQ_PORT_SIGNAL);
            lemma_released(p, r.intid as u64, IRQ_PORT_SIGNAL, 0, 0);
            assert(routes[routes.len() - 1] == r);
        }
    }
}

/// What is asked of the DMA unit and the interrupt controller names each device
/// and each line, in order.
pub proof fn law_every_end_is_asked_by_name(list: Seq<ObjectId>, routes: Seq<IrqRoute>, i: int)
    ensures
        lease_ends(list).len() == list.len(),
        0 <= i < list.len() ==> lease_ends(list)[i] == DmaOp::EndLease(list[i]),
        lines(routes).len() == routes.len(),
        0 <= i < routes.len() ==> lines(routes)[i] == routes[i].intid,
{
}

/// The routes of a device are its own.
pub proof fn law_the_routes_of_a_device(t: DevicesView, id: ObjectId)
    ensures
        device(t, id) matches Some(n) ==> routes_of(t, id) == n.routes,
        device(t, id) is None ==> routes_of(t, id).len() == 0,
{
}

/// Every line of every device in the list is masked.
pub proof fn law_every_line_is_masked(v: ExecView, list: Seq<ObjectId>)
    requires
        list.len() > 0,
    ensures
        v.masks(list).len() >= v.masks(list.drop_last()).len(),
        forall|k: int|
            0 <= k < routes_of(
                v.all_routes_ended(list.drop_last()).machine.devices,
                list.last(),
            ).len() ==> v.masks(list).contains(
                (#[trigger] routes_of(
                    v.all_routes_ended(list.drop_last()).machine.devices,
                    list.last(),
                )[k]).intid,
            ),
        forall|k: int|
            0 <= k < v.masks(list.drop_last()).len() ==> #[trigger] v.masks(list)[k] == v.masks(
                list.drop_last(),
            )[k],
{
    let rs = routes_of(v.all_routes_ended(list.drop_last()).machine.devices, list.last());
    let before = v.masks(list.drop_last());
    assert forall|k: int| 0 <= k < rs.len() implies v.masks(list).contains(
        (#[trigger] rs[k]).intid,
    ) by {
        assert(v.masks(list)[before.len() + k] == rs[k].intid);
    }
}

} // verus!
