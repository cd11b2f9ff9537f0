//! What the device operations report: one record for each thing that ended or
//! changed, with why.
use vstd::prelude::*;
use crate::devmgr::{lease_holder, DevicesView, IrqRoute};
use crate::exec::devices::{routes_of, IsolationPolicy};
use crate::exec::ExecView;
use crate::lifecycle::DriverState;
use crate::object::ObjectId;

verus! {

/// Why a DMA lease or an interrupt route ended.
#[derive(Clone, Copy, PartialEq, Eq, Debug, Structural)]
pub enum EndReason {
    /// Its holder gave the device up.
    GivenUp,
    /// Its holder is gone.
    HolderGone,
    /// Its time was up.
    Expired,
    /// The device was cut off after a refused access.
    FaultIsolated,
    /// The device was removed.
    Removed,
}

/// Something that happened to a device.
#[derive(Clone, Copy, PartialEq, Eq, Debug, Structural)]
pub enum DeviceRecord {
    /// Its DMA lease ended.
    LeaseEnded { device: ObjectId, holder: ObjectId, reason: EndReason },
    /// It was cut off: `kind` is the kind of access that was refused.
    Isolated { device: ObjectId, holder: ObjectId, policy: IsolationPolicy, kind: u32 },
    /// One of its interrupt routes ended.
    RouteEnded { device: ObjectId, intid: u32, holder: ObjectId, reason: EndReason },
    /// Its driver moved from one state to another.
    Transition { device: ObjectId, from: DriverState, to: DriverState, reason: u32, detail: u64 },
    /// It left the machine: how many processes held it and how many of them lost
    /// their windows on it, and how many services depended on it.
    Removed { device: ObjectId, holders: u64, windows: u64, dependents: u64 },
    /// It is no longer offered.
    Quarantined { device: ObjectId, faults: u64, policy: u64 },
}

/// What is reported when the lease of `device`, if it has one, ends.
pub open spec fn lease_record(t: DevicesView, device: ObjectId, reason: EndReason) -> Seq<
    DeviceRecord,
> {
    match lease_holder(t, device) {
        Some(holder) => seq![DeviceRecord::LeaseEnded { device, holder, reason }],
        None => Seq::empty(),
    }
}

/// What is reported when `routes` of `device` end.
pub open spec fn route_records(
    routes: Seq<IrqRoute>,
    device: ObjectId,
    reason: EndReason,
) -> Seq<DeviceRecord> {
    Seq::new(
        routes.len(),
        |i: int|
            DeviceRecord::RouteEnded {
                device,
                intid: routes[i].intid,
                holder: routes[i].holder,
                reason,
            },
    )
}

impl ExecView {
    /// What is reported when the leases of `list` end, in order.
    pub open spec fn lease_log(self, list: Seq<ObjectId>, reason: EndReason) -> Seq<DeviceRecord>
        decreases list.len(),
    {
        if list.len() == 0 {
            Seq::empty()
        } else {
            self.lease_log(list.drop_last(), reason) + lease_record(
                self.leases_ended(list.drop_last()).machine.devices,
                list.last(),
                reason,
            )
        }
    }

    /// What is reported when the routes of the devices of `list` end, in order.
    pub open spec fn route_log(self, list: Seq<ObjectId>, reason: EndReason) -> Seq<DeviceRecord>
        decreases list.len(),
    {
        if list.len() == 0 {
            Seq::empty()
        } else {
            self.route_log(list.drop_last(), reason) + route_records(
                routes_of(
                    self.all_routes_ended(list.drop_last()).machine.devices,
                    list.last(),
                ),
                list.last(),
                reason,
            )
        }
    }
}

/// What is told of an ended lease or route names the device, who had it and why.
pub proof fn law_an_end_is_told_by_name(
    t: DevicesView,
    device: ObjectId,
    routes: Seq<IrqRoute>,
    reason: EndReason,
    i: int,
)
    ensures
        lease_holder(t, device) is None ==> lease_record(t, device, reason).len() == 0,
        lease_holder(t, device) matches Some(h) ==> lease_record(t, device, reason).len() == 1
            && lease_record(t, device, reason)[0] == (DeviceRecord::LeaseEnded {
            device,
            holder: h,
            reason,
        }),
        route_records(routes, device, reason).len() == routes.len(),
        0 <= i < routes.len() ==> route_records(routes, device, reason)[i] == (
        DeviceRecord::RouteEnded {
            device,
            intid: routes[i].intid,
            holder: routes[i].holder,
            reason,
        }),
{
}

/// Every lease and every route that ends is told, in the order they end.
pub proof fn law_every_end_is_told(v: ExecView, list: Seq<ObjectId>, reason: EndReason)
    requires
        list.len() > 0,
    ensures
        v.lease_log(list, reason) == v.lease_log(list.drop_last(), reason) + lease_record(
            v.leases_ended(list.drop_last()).machine.devices,
            list.last(),
            reason,
        ),
        v.route_log(list, reason) == v.route_log(list.drop_last(), reason) + route_records(
            routes_of(v.all_routes_ended(list.drop_last()).machine.devices, list.last()),
            list.last(),
            reason,
        ),
        v.lease_log(Seq::empty(), reason).len() == 0,
        v.route_log(Seq::empty(), reason).len() == 0,
{
}

} // verus!
