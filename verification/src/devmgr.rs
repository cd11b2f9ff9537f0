//! The resource graph: one node per device, with what the kernel must know to
//! hand it out, take it back and tell others about it.
use vstd::prelude::*;
use crate::config::{MAX_DEPENDENTS, MAX_DEVICES, MAX_IRQ_ROUTES};
use crate::error::KError;
use crate::ipc::EndpointId;
use crate::object::ObjectId;
use crate::port::PortId;
use crate::rights::Rights;
use crate::slots;

verus! {

/// What a device is, as enumeration learned it.
#[derive(Clone, Copy, PartialEq, Eq, Debug, Structural)]
pub struct DeviceIdentity {
    pub vendor: u16,
    pub device: u16,
    pub class_code: u32,
}

/// The I/O ports of a device and the interrupt line they are served by.
#[derive(Clone, Copy, PartialEq, Eq, Debug, Structural)]
pub struct IoRange {
    pub base: u16,
    pub len: u16,
    pub irq: u8,
}

/// What a device is made of, as it was registered.
#[derive(Clone, Copy, Debug)]
pub struct Resources {
    /// The authority the graph has over the device.
    pub rights: Rights,
    pub io: Option<IoRange>,
    /// The register window: physical base and length.
    pub window: Option<(u64, u64)>,
    /// The configuration window: physical base and length.
    pub config: Option<(u64, u64)>,
    pub identity: Option<DeviceIdentity>,
}

/// The range of device addresses a lease translates.
#[derive(Clone, Copy, PartialEq, Eq, Debug, Structural)]
pub struct DeviceAperture {
    pub base: u64,
    pub len: u64,
}

/// A DMA lease: who may have the device reach memory, through which addresses,
/// how many of them are spent, and until when.
#[derive(Clone, Copy, PartialEq, Eq, Debug, Structural)]
pub struct Lease {
    pub holder: ObjectId,
    pub aperture: DeviceAperture,
    /// Bytes of the aperture handed out so far. Never reissued within a lease.
    pub spent: u64,
    pub expires_at: Option<u64>,
}

impl Lease {
    /// Where the next `len` bytes of the lease are, if they are left.
    pub open spec fn piece(self, len: u64) -> Option<u64> {
        if len <= self.aperture.len - self.spent && self.aperture.base + self.spent <= u64::MAX {
            Some((self.aperture.base + self.spent) as u64)
        } else {
            None
        }
    }

    /// With `len` bytes more spent.
    pub open spec fn spent_more(self, len: u64) -> Lease {
        Lease { spent: (self.spent + len) as u64, ..self }
    }
}

/// Where one interrupt line goes, and who receives it.
#[derive(Clone, Copy, PartialEq, Eq, Debug, Structural)]
pub struct IrqRoute {
    pub intid: u32,
    pub port: PortId,
    pub holder: ObjectId,
}

/// One device.
pub struct DeviceNode {
    object: ObjectId,
    resources: Resources,
    parent: Option<ObjectId>,
    intids: Vec<u32>,
    lease: Option<Lease>,
    routes: Vec<IrqRoute>,
    dependents: Vec<EndpointId>,
    wake_armed: bool,
    quarantined: bool,
    contiguous: bool,
}

/// What a [`DeviceNode`] holds.
#[verifier::ext_equal]
pub struct DeviceView {
    pub object: ObjectId,
    pub resources: Resources,
    pub parent: Option<ObjectId>,
    pub intids: Seq<u32>,
    pub lease: Option<Lease>,
    pub routes: Seq<IrqRoute>,
    pub dependents: Seq<EndpointId>,
    pub wake_armed: bool,
    pub quarantined: bool,
    pub contiguous: bool,
}

impl DeviceView {
    /// A device nobody has touched.
    pub open spec fn fresh(object: ObjectId, resources: Resources) -> DeviceView {
        DeviceView {
            object,
            resources,
            parent: None,
            intids: Seq::empty(),
            lease: None,
            routes: Seq::empty(),
            dependents: Seq::empty(),
            wake_armed: false,
            quarantined: false,
            contiguous: false,
        }
    }

    /// The node's invariant: its lists fit, a dependent names a side of a
    /// channel, and no more of a lease is spent than there is.
    pub open spec fn wf(self) -> bool {
        &&& self.intids.len() <= MAX_IRQ_ROUTES
        &&& self.routes.len() <= MAX_IRQ_ROUTES
        &&& self.dependents.len() <= MAX_DEPENDENTS
        &&& forall|i: int| 0 <= i < self.dependents.len() ==> (#[trigger] self.dependents[i]).side < 2
        &&& self.lease matches Some(l) ==> l.spent <= l.aperture.len
    }
}

impl View for DeviceNode {
    type V = DeviceView;

    closed spec fn view(&self) -> DeviceView {
        DeviceView {
            object: self.object,
            resources: self.resources,
            parent: self.parent,
            intids: self.intids@,
            lease: self.lease,
            routes: self.routes@,
            dependents: self.dependents@,
            wake_armed: self.wake_armed,
            quarantined: self.quarantined,
            contiguous: self.contiguous,
        }
    }
}

/// A fixed pool of device nodes.
pub struct DeviceTable {
    nodes: Vec<Option<DeviceNode>>,
}

/// What a [`DeviceTable`] holds.
pub type DevicesView = Seq<Option<DeviceView>>;

/// The view of an optional node.
pub open spec fn node_view(n: Option<DeviceNode>) -> Option<DeviceView> {
    match n {
        Some(n) => Some(n@),
        None => None,
    }
}

/// The table has its capacity, every node in it is sound, no device has two,
/// and nothing sits behind itself.
pub open spec fn devices_wf(t: DevicesView) -> bool {
    &&& t.len() == MAX_DEVICES
    &&& forest(t)
    &&& forall|i: int| 0 <= i < MAX_DEVICES ==> ((#[trigger] t[i]) matches Some(n) ==> n.wf())
    &&& forall|i: int, j: int|
        0 <= i < j < MAX_DEVICES && (#[trigger] t[i]) is Some && (#[trigger] t[j]) is Some
            ==> t[i]->0.object != t[j]->0.object
}

/// The device `id` sits directly behind, if it is in the graph and has one.
pub open spec fn parent(t: DevicesView, id: ObjectId) -> Option<ObjectId> {
    match device(t, id) {
        Some(n) => n.parent,
        None => None,
    }
}

/// The device `n` steps above `id`, if the chain of parents is that long.
pub open spec fn above(t: DevicesView, id: ObjectId, n: nat) -> Option<ObjectId>
    decreases n,
{
    if n == 0 {
        Some(id)
    } else {
        match above(t, id, (n - 1) as nat) {
            Some(m) => parent(t, m),
            None => None,
        }
    }
}

/// Whether `id` is `root` or sits behind it, directly or through others.
pub open spec fn sits_below(t: DevicesView, id: ObjectId, root: ObjectId) -> bool {
    exists|n: nat| #[trigger] above(t, id, n) == Some(root)
}

/// Whether `rank` puts every device below what it sits behind.
pub open spec fn ranked(t: DevicesView, rank: spec_fn(ObjectId) -> nat) -> bool {
    forall|i: int|
        0 <= i < t.len() && (#[trigger] t[i]) is Some && t[i]->0.parent is Some ==> rank(
            t[i]->0.parent->0,
        ) < rank(t[i]->0.object)
}

/// Whether no device sits behind itself, directly or through others.
pub open spec fn forest(t: DevicesView) -> bool {
    exists|rank: spec_fn(ObjectId) -> nat| #[trigger] ranked(t, rank)
}

/// The predicate of the node of `id`.
pub open spec fn node_of(id: ObjectId) -> spec_fn(Option<DeviceView>) -> bool {
    |o: Option<DeviceView>| o matches Some(n) && n.object == id
}

/// Where the node of `id` is, or the capacity.
pub open spec fn device_slot(t: DevicesView, id: ObjectId) -> int {
    slots::first(t, node_of(id))
}

/// The node of `id`, if the graph has one.
pub open spec fn device(t: DevicesView, id: ObjectId) -> Option<DeviceView> {
    if device_slot(t, id) < t.len() {
        t[device_slot(t, id)]
    } else {
        None
    }
}

/// The first free slot, or the capacity.
pub open spec fn device_vacancy(t: DevicesView) -> int {
    slots::first(t, slots::free::<DeviceView>())
}

/// The graph with the node of `id`, which exists, replaced.
pub open spec fn with_device(t: DevicesView, id: ObjectId, n: DeviceView) -> DevicesView {
    t.update(device_slot(t, id), Some(n))
}

/// The devices that satisfy `p`, in table order.
pub open spec fn devices_where(t: DevicesView, p: spec_fn(DeviceView) -> bool) -> Seq<ObjectId>
    decreases t.len(),
{
    if t.len() == 0 {
        Seq::empty()
    } else {
        let before = devices_where(t.drop_last(), p);
        match t.last() {
            Some(n) => if p(n) {
                before.push(n.object)
            } else {
                before
            },
            None => before,
        }
    }
}

/// The predicate of any device.
pub open spec fn any_device() -> spec_fn(DeviceView) -> bool {
    |n: DeviceView| true
}

/// The predicate of a device directly behind `parent`.
pub open spec fn behind(parent: ObjectId) -> spec_fn(DeviceView) -> bool {
    |n: DeviceView| n.parent == Some(parent)
}

/// The predicate of a device whose lease `holder` holds.
pub open spec fn leased_to(holder: ObjectId) -> spec_fn(DeviceView) -> bool {
    |n: DeviceView| n.lease matches Some(l) && l.holder == holder
}

/// The predicate of a device whose lease has run out by `now`.
pub open spec fn lease_lapsed(now: u64) -> spec_fn(DeviceView) -> bool {
    |n: DeviceView| n.lease matches Some(l) && (l.expires_at matches Some(at) && at <= now)
}

/// The predicate of a route `holder` receives.
pub open spec fn received_by(holder: ObjectId) -> spec_fn(IrqRoute) -> bool {
    |r: IrqRoute| r.holder == holder
}

/// The predicate of a device with a route `holder` receives.
pub open spec fn routed_to(holder: ObjectId) -> spec_fn(DeviceView) -> bool {
    |n: DeviceView| slots::any(n.routes, received_by(holder))
}

/// The predicate of a device with the armed line `intid`.
pub open spec fn armed_on(intid: u32) -> spec_fn(Option<DeviceView>) -> bool {
    |o: Option<DeviceView>| o matches Some(n) && n.wake_armed && n.intids.contains(intid)
}

/// Who holds the lease of `id`, if anyone does.
pub open spec fn lease_holder(t: DevicesView, id: ObjectId) -> Option<ObjectId> {
    match device(t, id) {
        Some(n) => match n.lease {
            Some(l) => Some(l.holder),
            None => None,
        },
        None => None,
    }
}

/// The first route of `id`, if it has one.
pub open spec fn first_route(t: DevicesView, id: ObjectId) -> Option<IrqRoute> {
    match device(t, id) {
        Some(n) => if n.routes.len() > 0 {
            Some(n.routes[0])
        } else {
            None
        },
        None => None,
    }
}

impl View for DeviceTable {
    type V = DevicesView;

    closed spec fn view(&self) -> DevicesView {
        Seq::new(self.nodes@.len(), |i: int| node_view(self.nodes@[i]))
    }
}

/// Replacing a node by another state of the same device keeps the graph sound.
proof fn lemma_with_device(t: DevicesView, id: ObjectId, n: DeviceView)
    requires
        devices_wf(t),
        device(t, id) is Some,
        n.wf(),
        n.object == id,
        n.parent == device(t, id)->0.parent,
    ensures
        devices_wf(with_device(t, id, n)),
        device_slot(with_device(t, id, n), id) == device_slot(t, id),
        device(with_device(t, id, n), id) == Some(n),
{
    let i = device_slot(t, id);
    slots::lemma_first(t, node_of(id));
    let u = with_device(t, id, n);
    slots::lemma_first_is(u, node_of(id), i);
    assert forall|a: int, b: int|
        0 <= a < b < MAX_DEVICES && (#[trigger] u[a]) is Some && (#[trigger] u[b]) is Some implies u[a]->0.object
        != u[b]->0.object by {
        assert(t[a] is Some && t[b] is Some);
    }
    let rank = choose|rank: spec_fn(ObjectId) -> nat| #[trigger] ranked(t, rank);
    assert(ranked(u, rank)) by {
        assert(t[i] is Some);
    }
}

/// The node of `id` is where it is found.
pub proof fn lemma_device_at(t: DevicesView, id: ObjectId)
    requires
        devices_wf(t),
        device(t, id) is Some,
    ensures
        0 <= device_slot(t, id) < MAX_DEVICES,
        t[device_slot(t, id)] == device(t, id),
        device(t, id)->0.object == id,
        device(t, id)->0.wf(),
{
    slots::lemma_first(t, node_of(id));
    assert(t[device_slot(t, id)] is Some);
}

/// Each step up a chain of parents goes up in rank.
proof fn lemma_chain_rank(t: DevicesView, rank: spec_fn(ObjectId) -> nat, id: ObjectId, n: nat)
    requires
        devices_wf(t),
        ranked(t, rank),
        above(t, id, n) is Some,
    ensures
        rank(above(t, id, n)->0) + n <= rank(id),
    decreases n,
{
    if n > 0 {
        let m = above(t, id, (n - 1) as nat)->0;
        lemma_chain_rank(t, rank, id, (n - 1) as nat);
        lemma_device_at(t, m);
    }
}

/// A chain that has ended stays ended.
proof fn lemma_chain_ends(t: DevicesView, id: ObjectId, n: nat, m: nat)
    requires
        above(t, id, n) is None,
        n <= m,
    ensures
        above(t, id, m) is None,
    decreases m,
{
    if m > n {
        lemma_chain_ends(t, id, n, (m - 1) as nat);
    }
}

/// Going up `a` steps and then `b` is going up `a + b`.
pub proof fn lemma_chain_split(t: DevicesView, id: ObjectId, a: nat, b: nat)
    requires
        above(t, id, a) is Some,
    ensures
        above(t, id, a + b) == above(t, above(t, id, a)->0, b),
    decreases b,
{
    if b > 0 {
        lemma_chain_split(t, id, a, (b - 1) as nat);
    }
}

/// No chain of parents is longer than the table.
pub proof fn lemma_chain_short(t: DevicesView, id: ObjectId, n: nat)
    requires
        devices_wf(t),
        above(t, id, n) is Some,
    ensures
        n <= MAX_DEVICES,
{
    let rank = choose|rank: spec_fn(ObjectId) -> nat| #[trigger] ranked(t, rank);
    let places = Seq::new(n, |k: int| device_slot(t, above(t, id, k as nat)->0));
    assert forall|k: int| 0 <= k < n implies 0 <= #[trigger] places[k] < MAX_DEVICES
        && above(t, id, k as nat) is Some && t[places[k]] is Some && t[places[k]]->0.object
        == above(t, id, k as nat)->0 by {
        if above(t, id, (k + 1) as nat) is None {
            lemma_chain_ends(t, id, (k + 1) as nat, n);
        }
        let m = above(t, id, k as nat)->0;
        assert(device(t, m) is Some);
        lemma_device_at(t, m);
    }
    assert forall|a: int, b: int| 0 <= a < b < n implies places[a] != places[b] by {
        let x = above(t, id, a as nat)->0;
        assert(0 <= places[a] < MAX_DEVICES && 0 <= places[b] < MAX_DEVICES);
        lemma_chain_split(t, id, a as nat, (b - a) as nat);
        lemma_chain_rank(t, rank, x, (b - a) as nat);
    }
    places.unique_seq_to_set();
    let all = vstd::set_lib::set_int_range(0, MAX_DEVICES as int);
    vstd::set_lib::lemma_int_range(0, MAX_DEVICES as int);
    assert(places.to_set().subset_of(all)) by {
        assert forall|x: int| places.to_set().contains(x) implies all.contains(x) by {
            let k = choose|k: int| 0 <= k < places.len() && places[k] == x;
            assert(0 <= places[k] < MAX_DEVICES);
        }
    }
    vstd::set_lib::lemma_len_subset(places.to_set(), all);
}

/// Putting `child` behind a device that does not sit below it closes no loop.
proof fn lemma_reparented(t: DevicesView, child: ObjectId, to: ObjectId, u: DevicesView)
    requires
        devices_wf(t),
        device(t, child) is Some,
        !sits_below(t, to, child),
        u == with_device(t, child, DeviceView { parent: Some(to), ..device(t, child)->0 }),
    ensures
        devices_wf(u),
{
    let i = device_slot(t, child);
    lemma_device_at(t, child);
    assert forall|a: int, b: int|
        0 <= a < b < MAX_DEVICES && (#[trigger] u[a]) is Some && (#[trigger] u[b]) is Some implies u[a]->0.object
        != u[b]->0.object by {
        assert(t[a] is Some && t[b] is Some);
    }
    let rank = choose|rank: spec_fn(ObjectId) -> nat| #[trigger] ranked(t, rank);
    let lowered = |id: ObjectId|
        if sits_below(t, id, child) {
            rank(id) + rank(to) + 1
        } else {
            rank(id)
        };
    assert forall|k: int|
        0 <= k < u.len() && (#[trigger] u[k]) is Some && u[k]->0.parent is Some implies lowered(
        u[k]->0.parent->0,
    ) < lowered(u[k]->0.object) by {
        assert(t[k] is Some);
        let x = u[k]->0.object;
        let y = u[k]->0.parent->0;
        if k == i {
            assert(x == child);
            assert(above(t, child, 0) == Some(child));
        } else {
            assert(x != child);
            lemma_found(t, k);
            assert(parent(t, x) == Some(y));
            if sits_below(t, x, child) {
                let n = choose|n: nat| #[trigger] above(t, x, n) == Some(child);
                assert(n > 0);
                assert(above(t, x, 0) == Some(x));
                assert(above(t, x, 1) == Some(y));
                lemma_chain_split(t, x, 1, (n - 1) as nat);
                assert(above(t, y, (n - 1) as nat) == Some(child));
            } else if sits_below(t, y, child) {
                let n = choose|n: nat| #[trigger] above(t, y, n) == Some(child);
                assert(above(t, x, 0) == Some(x));
                assert(above(t, x, 1) == Some(y));
                lemma_chain_split(t, x, 1, n);
                assert(above(t, x, 1 + n) == Some(child));
            }
        }
    }
    assert(ranked(u, lowered));
}

/// Whether one of `routes` is received by `holder`.
fn any_received_by(routes: &Vec<IrqRoute>, holder: ObjectId) -> (b: bool)
    ensures
        b == slots::any(routes@, received_by(holder)),
{
    let mut i: usize = 0;
    while i < routes.len()
        invariant
            i <= routes@.len(),
            forall|j: int| 0 <= j < i ==> !received_by(holder)(#[trigger] routes@[j]),
        decreases routes@.len() - i,
    {
        if routes[i].holder == holder {
            assert(received_by(holder)(routes@[i as int]));
            return true;
        }
        i += 1;
    }
    false
}

/// A device is found in the slot it has.
pub proof fn lemma_found(t: DevicesView, k: int)
    requires
        devices_wf(t),
        0 <= k < MAX_DEVICES,
        t[k] is Some,
    ensures
        device_slot(t, t[k]->0.object) == k,
        device(t, t[k]->0.object) == t[k],
{
    let id = t[k]->0.object;
    slots::lemma_first(t, node_of(id));
    let i = device_slot(t, id);
    assert(node_of(id)(t[k]));
    if i < k {
        assert(t[i] is Some);
    }
}

impl DeviceTable {
    /// The graph's invariant.
    pub open spec fn wf(&self) -> bool {
        devices_wf(self@)
    }

    pub fn new() -> (t: DeviceTable)
        ensures
            t.wf(),
            t@ == slots::empty::<DeviceView>(MAX_DEVICES as nat),
    {
        let t = DeviceTable { nodes: slots::empty_slots(MAX_DEVICES) };
        assert(t@ =~= slots::empty::<DeviceView>(MAX_DEVICES as nat));
        assert(ranked(t@, |id: ObjectId| 0nat));
        t
    }

    fn find(&self, id: ObjectId) -> (r: Option<usize>)
        requires
            self.wf(),
        ensures
            match r {
                Some(i) => {
                    &&& i == device_slot(self@, id)
                    &&& i < MAX_DEVICES
                    &&& self@[i as int] is Some
                    &&& self@[i as int]->0.object == id
                    &&& device(self@, id) == self@[i as int]
                },
                None => device_slot(self@, id) == MAX_DEVICES && device(self@, id) is None,
            },
    {
        let mut i: usize = 0;
        while i < MAX_DEVICES
            invariant
                self.wf(),
                i <= MAX_DEVICES,
                forall|j: int| 0 <= j < i ==> !node_of(id)(#[trigger] self@[j]),
            decreases MAX_DEVICES - i,
        {
            assert(self@[i as int] == node_view(self.nodes@[i as int]));
            if let Some(n) = &self.nodes[i] {
                if n.object == id {
                    proof {
                        slots::lemma_first_is(self@, node_of(id), i as int);
                    }
                    return Some(i);
                }
            }
            i += 1;
        }
        proof {
            slots::lemma_first_is(self@, node_of(id), i as int);
        }
        None
    }

    fn node(&self, id: ObjectId) -> (r: Option<&DeviceNode>)
        requires
            self.wf(),
        ensures
            match r {
                Some(n) => device(self@, id) == Some(n@) && n@.wf() && n@.object == id,
                None => device(self@, id) is None,
            },
    {
        match self.find(id) {
            None => None,
            Some(i) => {
                assert(self@[i as int] == node_view(self.nodes@[i as int]));
                self.nodes[i].as_ref()
            },
        }
    }

    fn node_mut(&mut self, id: ObjectId) -> (r: Option<&mut DeviceNode>)
        requires
            old(self).wf(),
        ensures
            match r {
                Some(n) => {
                    &&& device(old(self)@, id) == Some((*n)@)
                    &&& (*n)@.wf()
                    &&& (*n)@.object == id
                    &&& final(self)@ == with_device(old(self)@, id, (*final(n))@)
                    &&& (*final(n))@.wf() && (*final(n))@.object == id && (*final(n))@.parent
                        == (*n)@.parent ==> final(self).wf()
                        && device(final(self)@, id) == Some((*final(n))@)
                },
                None => {
                    &&& device(old(self)@, id) is None
                    &&& final(self).wf()
                    &&& final(self)@ == old(self)@
                },
            },
    {
        match self.find(id) {
            None => None,
            Some(i) => {
                let ghost t = self@;
                assert(self@[i as int] == node_view(self.nodes@[i as int]));
                match &mut self.nodes[i] {
                    Some(n) => {
                        proof {
                            assert forall|f: DeviceView|
                                f.wf() && f.object == id && f.parent == device(
                                    t,
                                    id,
                                )->0.parent implies devices_wf(
                                #[trigger] with_device(t, id, f),
                            ) && device(with_device(t, id, f), id) == Some(f) by {
                                lemma_with_device(t, id, f);
                            }
                        }
                        assert(after_borrow(self)@ =~= with_device(t, id, (*final(n))@));
                        Some(n)
                    },
                    None => None,
                }
            },
        }
    }

    /// Registers a device. [`KError::AlreadyMapped`] if the graph has it,
    /// [`KError::OutOfMemory`] if there is no room.
    pub fn register(&mut self, id: ObjectId, resources: Resources) -> (r: Result<(), KError>)
        requires
            old(self).wf(),
        ensures
            final(self).wf(),
            match r {
                Ok(_) => {
                    &&& device(old(self)@, id) is None
                    &&& device_vacancy(old(self)@) < MAX_DEVICES
                    &&& final(self)@ == old(self)@.update(
                        device_vacancy(old(self)@),
                        Some(DeviceView::fresh(id, resources)),
                    )
                },
                Err(e) => {
                    &&& final(self)@ == old(self)@
                    &&& if device(old(self)@, id) is Some {
                        e == KError::AlreadyMapped
                    } else {
                        e == KError::OutOfMemory && device_vacancy(old(self)@) == MAX_DEVICES
                    }
                },
            },
    {
        if self.find(id).is_some() {
            return Err(KError::AlreadyMapped);
        }
        let ghost t = self@;
        let mut i: usize = 0;
        while i < MAX_DEVICES
            invariant
                self.wf(),
                self@ == t,
                t == old(self)@,
                device(t, id) is None,
                i <= MAX_DEVICES,
                forall|j: int| 0 <= j < i ==> !slots::free::<DeviceView>()(#[trigger] t[j]),
            decreases MAX_DEVICES - i,
        {
            assert(self@[i as int] == node_view(self.nodes@[i as int]));
            if self.nodes[i].is_none() {
                proof {
                    slots::lemma_first_is(t, slots::free::<DeviceView>(), i as int);
                    slots::lemma_first(t, node_of(id));
                }
                self.nodes[i] = Some(
                    DeviceNode {
                        object: id,
                        resources,
                        parent: None,
                        intids: Vec::new(),
                        lease: None,
                        routes: Vec::new(),
                        dependents: Vec::new(),
                        wake_armed: false,
                        quarantined: false,
                        contiguous: false,
                    },
                );
                proof {
                    let fresh = DeviceView::fresh(id, resources);
                    assert(self@ =~= t.update(i as int, Some(fresh)));
                    assert forall|a: int, b: int|
                        0 <= a < b < MAX_DEVICES && (#[trigger] self@[a]) is Some && (
                        #[trigger] self@[b]) is Some implies self@[a]->0.object
                        != self@[b]->0.object by {
                        assert(!node_of(id)(t[a]));
                        assert(!node_of(id)(t[b]));
                    }
                    let rank = choose|rank: spec_fn(ObjectId) -> nat| #[trigger] ranked(t, rank);
                    assert(ranked(self@, rank));
                }
                return Ok(());
            }
            i += 1;
        }
        proof {
            slots::lemma_first_is(t, slots::free::<DeviceView>(), i as int);
        }
        Err(KError::OutOfMemory)
    }

    /// Takes `id` out of the graph and returns who depended on it, or `None`
    /// when the graph does not have it.
    pub fn remove(&mut self, id: ObjectId) -> (r: Option<Vec<EndpointId>>)
        requires
            old(self).wf(),
        ensures
            final(self).wf(),
            match r {
                Some(d) => {
                    &&& device(old(self)@, id) matches Some(n)
                    &&& d@ == n.dependents
                    &&& final(self)@ == old(self)@.update(device_slot(old(self)@, id), None)
                },
                None => device(old(self)@, id) is None && final(self)@ == old(self)@,
            },
    {
        match self.find(id) {
            None => None,
            Some(i) => {
                let ghost t = self@;
                assert(self@[i as int] == node_view(self.nodes@[i as int]));
                let taken = self.nodes[i].take();
                proof {
                    assert(self@ =~= t.update(i as int, None));
                    assert forall|a: int, b: int|
                        0 <= a < b < MAX_DEVICES && (#[trigger] self@[a]) is Some && (
                        #[trigger] self@[b]) is Some implies self@[a]->0.object
                        != self@[b]->0.object by {
                        assert(t[a] is Some && t[b] is Some);
                    }
                    let rank = choose|rank: spec_fn(ObjectId) -> nat| #[trigger] ranked(t, rank);
                    assert(ranked(self@, rank));
                }
                match taken {
                    Some(n) => Some(n.dependents),
                    None => None,
                }
            },
        }
    }

    /// Whether the graph has `id`.
    pub fn contains(&self, id: ObjectId) -> (r: bool)
        requires
            self.wf(),
        ensures
            r == match device(self@, id) {
                Some(n) => true,
                None => false,
            },
    {
        match self.node(id) {
            Some(n) => true,
            None => false,
        }
    }

    /// The authority the graph holds over `id`.
    pub fn rights_of_object(&self, id: ObjectId) -> (r: Option<Rights>)
        requires
            self.wf(),
        ensures
            r == match device(self@, id) {
                Some(n) => Some(n.resources.rights),
                None => None,
            },
    {
        match self.node(id) {
            Some(n) => Some(n.resources.rights),
            None => None,
        }
    }

    /// The register window of `id`, if it has one.
    pub fn mmio_of_object(&self, id: ObjectId) -> (r: Option<(u64, u64)>)
        requires
            self.wf(),
        ensures
            r == match device(self@, id) {
                Some(n) => n.resources.window,
                None => None,
            },
    {
        match self.node(id) {
            Some(n) => n.resources.window,
            None => None,
        }
    }

    /// What `id` is, if enumeration learned it.
    pub fn identity_of_object(&self, id: ObjectId) -> (r: Option<DeviceIdentity>)
        requires
            self.wf(),
        ensures
            r == match device(self@, id) {
                Some(n) => n.resources.identity,
                None => None,
            },
    {
        match self.node(id) {
            Some(n) => n.resources.identity,
            None => None,
        }
    }

    /// The device `id` sits behind, if any.
    pub fn parent_of(&self, id: ObjectId) -> (r: Option<ObjectId>)
        requires
            self.wf(),
        ensures
            r == match device(self@, id) {
                Some(n) => n.parent,
                None => None,
            },
    {
        match self.node(id) {
            Some(n) => n.parent,
            None => None,
        }
    }

    /// Whether policy has stopped offering `id`.
    pub fn is_quarantined(&self, id: ObjectId) -> (r: bool)
        requires
            self.wf(),
        ensures
            r == match device(self@, id) {
                Some(n) => n.quarantined,
                None => false,
            },
    {
        match self.node(id) {
            Some(n) => n.quarantined,
            None => false,
        }
    }

    /// Whether the interrupt of `id` may wake the machine.
    pub fn is_wake_source(&self, id: ObjectId) -> (r: bool)
        requires
            self.wf(),
        ensures
            r == match device(self@, id) {
                Some(n) => n.wake_armed,
                None => false,
            },
    {
        match self.node(id) {
            Some(n) => n.wake_armed,
            None => false,
        }
    }

    /// The lease of `id`, if it has one.
    pub fn lease_of_object(&self, id: ObjectId) -> (r: Option<Lease>)
        requires
            self.wf(),
        ensures
            r == match device(self@, id) {
                Some(n) => n.lease,
                None => None,
            },
    {
        match self.node(id) {
            Some(n) => n.lease,
            None => None,
        }
    }

    /// The DMA aperture `id` translates through, if it has a live lease.
    pub fn aperture_of_object(&self, id: ObjectId) -> (r: Option<DeviceAperture>)
        requires
            self.wf(),
        ensures
            r == match device(self@, id) {
                Some(n) => match n.lease {
                    Some(l) => Some(l.aperture),
                    None => None,
                },
                None => None,
            },
    {
        match self.lease_of_object(id) {
            Some(l) => Some(l.aperture),
            None => None,
        }
    }

    /// Who holds the lease of `id`, if anyone does.
    pub fn lease_holder_of_object(&self, id: ObjectId) -> (r: Option<ObjectId>)
        requires
            self.wf(),
        ensures
            r == lease_holder(self@, id),
    {
        match self.lease_of_object(id) {
            Some(l) => Some(l.holder),
            None => None,
        }
    }

    /// The first interrupt line of `id`, if it has one.
    pub fn intid_of_object(&self, id: ObjectId) -> (r: Option<u32>)
        requires
            self.wf(),
        ensures
            r == match device(self@, id) {
                Some(n) => if n.intids.len() > 0 {
                    Some(n.intids[0])
                } else {
                    None
                },
                None => None,
            },
    {
        match self.node(id) {
            Some(n) => if n.intids.len() > 0 {
                Some(n.intids[0])
            } else {
                None
            },
            None => None,
        }
    }

    /// The first interrupt route of `id`, if it has one.
    pub fn irq_route_of_object(&self, id: ObjectId) -> (r: Option<IrqRoute>)
        requires
            self.wf(),
        ensures
            r == first_route(self@, id),
    {
        match self.node(id) {
            Some(n) => if n.routes.len() > 0 {
                Some(n.routes[0])
            } else {
                None
            },
            None => None,
        }
    }

    /// The endpoints depending on `id`.
    pub fn dependents_of(&self, id: ObjectId) -> (out: Vec<EndpointId>)
        requires
            self.wf(),
        ensures
            out@ == match device(self@, id) {
                Some(n) => n.dependents,
                None => Seq::empty(),
            },
            out@.len() <= MAX_DEPENDENTS,
            forall|i: int| 0 <= i < out@.len() ==> (#[trigger] out@[i]).side < 2,
    {
        let mut out: Vec<EndpointId> = Vec::new();
        if let Some(n) = self.node(id) {
            let mut i: usize = 0;
            while i < n.dependents.len()
                invariant
                    i <= n.dependents@.len(),
                    out@ == n.dependents@.take(i as int),
                decreases n.dependents@.len() - i,
            {
                out.push(n.dependents[i]);
                i += 1;
                assert(n.dependents@.take(i as int) =~= n.dependents@.take(i - 1).push(
                    n.dependents@[i - 1],
                ));
            }
            assert(n.dependents@.take(i as int) =~= n.dependents@);
        }
        out
    }

    /// Every device in the graph.
    pub fn objects(&self) -> (out: Vec<ObjectId>)
        requires
            self.wf(),
        ensures
            out@ == devices_where(self@, any_device()),
            out@.len() <= MAX_DEVICES,
    {
        let mut out: Vec<ObjectId> = Vec::new();
        let mut i: usize = 0;
        let ghost t = self@;
        let ghost p = any_device();
        assert(devices_where(t.take(0), p) =~= Seq::<ObjectId>::empty());
        while i < MAX_DEVICES
            invariant
                self.wf(),
                t == self@,
                p == any_device(),
                i <= MAX_DEVICES,
                out@.len() <= i,
                out@ == devices_where(t.take(i as int), p),
            decreases MAX_DEVICES - i,
        {
            proof {
                assert(t.take(i + 1).drop_last() =~= t.take(i as int));
                assert(t.take(i + 1).last() == t[i as int]);
                assert(t[i as int] == node_view(self.nodes@[i as int]));
            }
            if let Some(n) = &self.nodes[i] {
                let hit: bool = true;
                if hit {
                    out.push(n.object);
                }
            }
            i += 1;
        }
        assert(t.take(i as int) =~= t);
        out
    }

    /// The devices directly behind `parent`.
    pub fn children_of(&self, parent: ObjectId) -> (out: Vec<ObjectId>)
        requires
            self.wf(),
        ensures
            out@ == devices_where(self@, behind(parent)),
            out@.len() <= MAX_DEVICES,
    {
        let mut out: Vec<ObjectId> = Vec::new();
        let mut i: usize = 0;
        let ghost t = self@;
        let ghost p = behind(parent);
        assert(devices_where(t.take(0), p) =~= Seq::<ObjectId>::empty());
        while i < MAX_DEVICES
            invariant
                self.wf(),
                t == self@,
                p == behind(parent),
                i <= MAX_DEVICES,
                out@.len() <= i,
                out@ == devices_where(t.take(i as int), p),
            decreases MAX_DEVICES - i,
        {
            proof {
                assert(t.take(i + 1).drop_last() =~= t.take(i as int));
                assert(t.take(i + 1).last() == t[i as int]);
                assert(t[i as int] == node_view(self.nodes@[i as int]));
            }
            if let Some(n) = &self.nodes[i] {
                let hit: bool = match n.parent {
                    Some(p) => p == parent,
                    None => false,
                };
                if hit {
                    out.push(n.object);
                }
            }
            i += 1;
        }
        assert(t.take(i as int) =~= t);
        out
    }

    /// The devices whose lease `holder` holds.
    pub fn leases_held_by(&self, holder: ObjectId) -> (out: Vec<ObjectId>)
        requires
            self.wf(),
        ensures
            out@ == devices_where(self@, leased_to(holder)),
            out@.len() <= MAX_DEVICES,
    {
        let mut out: Vec<ObjectId> = Vec::new();
        let mut i: usize = 0;
        let ghost t = self@;
        let ghost p = leased_to(holder);
        assert(devices_where(t.take(0), p) =~= Seq::<ObjectId>::empty());
        while i < MAX_DEVICES
            invariant
                self.wf(),
                t == self@,
                p == leased_to(holder),
                i <= MAX_DEVICES,
                out@.len() <= i,
                out@ == devices_where(t.take(i as int), p),
            decreases MAX_DEVICES - i,
        {
            proof {
                assert(t.take(i + 1).drop_last() =~= t.take(i as int));
                assert(t.take(i + 1).last() == t[i as int]);
                assert(t[i as int] == node_view(self.nodes@[i as int]));
            }
            if let Some(n) = &self.nodes[i] {
                let hit: bool = match n.lease {
                    Some(l) => l.holder == holder,
                    None => false,
                };
                if hit {
                    out.push(n.object);
                }
            }
            i += 1;
        }
        assert(t.take(i as int) =~= t);
        out
    }

    /// The devices whose lease has run out by `now`.
    pub fn leases_expired_by(&self, now: u64) -> (out: Vec<ObjectId>)
        requires
            self.wf(),
        ensures
            out@ == devices_where(self@, lease_lapsed(now)),
            out@.len() <= MAX_DEVICES,
    {
        let mut out: Vec<ObjectId> = Vec::new();
        let mut i: usize = 0;
        let ghost t = self@;
        let ghost p = lease_lapsed(now);
        assert(devices_where(t.take(0), p) =~= Seq::<ObjectId>::empty());
        while i < MAX_DEVICES
            invariant
                self.wf(),
                t == self@,
                p == lease_lapsed(now),
                i <= MAX_DEVICES,
                out@.len() <= i,
                out@ == devices_where(t.take(i as int), p),
            decreases MAX_DEVICES - i,
        {
            proof {
                assert(t.take(i + 1).drop_last() =~= t.take(i as int));
                assert(t.take(i + 1).last() == t[i as int]);
                assert(t[i as int] == node_view(self.nodes@[i as int]));
            }
            if let Some(n) = &self.nodes[i] {
                let hit: bool = match n.lease {
                    Some(l) => match l.expires_at {
                        Some(at) => at <= now,
                        None => false,
                    },
                    None => false,
                };
                if hit {
                    out.push(n.object);
                }
            }
            i += 1;
        }
        assert(t.take(i as int) =~= t);
        out
    }

    /// The devices whose first route `holder` receives.
    pub fn irq_routes_held_by(&self, holder: ObjectId) -> (out: Vec<ObjectId>)
        requires
            self.wf(),
        ensures
            out@ == devices_where(self@, routed_to(holder)),
            out@.len() <= MAX_DEVICES,
    {
        let mut out: Vec<ObjectId> = Vec::new();
        let mut i: usize = 0;
        let ghost t = self@;
        let ghost p = routed_to(holder);
        assert(devices_where(t.take(0), p) =~= Seq::<ObjectId>::empty());
        while i < MAX_DEVICES
            invariant
                self.wf(),
                t == self@,
                p == routed_to(holder),
                i <= MAX_DEVICES,
                out@.len() <= i,
                out@ == devices_where(t.take(i as int), p),
            decreases MAX_DEVICES - i,
        {
            proof {
                assert(t.take(i + 1).drop_last() =~= t.take(i as int));
                assert(t.take(i + 1).last() == t[i as int]);
                assert(t[i as int] == node_view(self.nodes@[i as int]));
            }
            if let Some(n) = &self.nodes[i] {
                let hit: bool = any_received_by(&n.routes, holder);
                if hit {
                    out.push(n.object);
                }
            }
            i += 1;
        }
        assert(t.take(i as int) =~= t);
        out
    }

    /// Whether `id` is `root` or sits behind it, directly or through others.
    pub fn is_descendant_of(&self, id: ObjectId, root: ObjectId) -> (b: bool)
        requires
            self.wf(),
        ensures
            b == sits_below(self@, id, root),
    {
        let ghost t = self@;
        let mut at: ObjectId = id;
        let mut n: usize = 0;
        assert(above(t, id, 0) == Some(id));
        while n <= MAX_DEVICES
            invariant
                self.wf(),
                self@ == t,
                n <= MAX_DEVICES + 1,
                above(t, id, n as nat) == Some(at),
                forall|k: nat| k < n ==> #[trigger] above(t, id, k) != Some(root),
            decreases MAX_DEVICES + 1 - n,
        {
            if at == root {
                return true;
            }
            match self.parent_of(at) {
                None => {
                    proof {
                        assert(above(t, id, (n + 1) as nat) is None);
                        if sits_below(t, id, root) {
                            let k = choose|k: nat| #[trigger] above(t, id, k) == Some(root);
                            if k > n {
                                lemma_chain_ends(t, id, (n + 1) as nat, k);
                            }
                        }
                    }
                    return false;
                },
                Some(next) => {
                    assert(above(t, id, (n + 1) as nat) == Some(next));
                    at = next;
                },
            }
            n += 1;
        }
        proof {
            lemma_chain_short(t, id, n as nat);
        }
        false
    }

    /// Puts `child` behind `to`. Both must be in the graph, and `to` must not
    /// sit behind `child` already.
    pub fn set_parent(&mut self, child: ObjectId, to: ObjectId) -> (r: Result<(), KError>)
        requires
            old(self).wf(),
        ensures
            final(self).wf(),
            ({
                let t = old(self)@;
                if device(t, child) is None || device(t, to) is None {
                    r == Err::<(), _>(KError::BadHandle) && final(self)@ == t
                } else if sits_below(t, to, child) {
                    r == Err::<(), _>(KError::Protocol) && final(self)@ == t
                } else {
                    &&& r is Ok
                    &&& final(self)@ == with_device(
                        t,
                        child,
                        DeviceView { parent: Some(to), ..device(t, child)->0 },
                    )
                }
            }),
    {
        if !self.contains(to) {
            return Err(KError::BadHandle);
        }
        let i: usize = match self.find(child) {
            None => {
                return Err(KError::BadHandle);
            },
            Some(i) => i,
        };
        if self.is_descendant_of(to, child) {
            return Err(KError::Protocol);
        }
        let ghost t = self@;
        let ghost u = with_device(t, child, DeviceView { parent: Some(to), ..device(t, child)->0 });
        assert(self@[i as int] == node_view(self.nodes@[i as int]));
        if let Some(n) = &mut self.nodes[i] {
            n.parent = Some(to);
        }
        proof {
            assert(self@ =~= u);
            lemma_reparented(t, child, to, u);
        }
        Ok(())
    }

    /// The I/O ports of `id`: base and length.
    pub fn device_of_object(&self, id: ObjectId) -> (r: Option<(u16, u16)>)
        requires
            self.wf(),
        ensures
            r == match device(self@, id) {
                Some(n) => match n.resources.io {
                    Some(io) => Some((io.base, io.len)),
                    None => None,
                },
                None => None,
            },
    {
        match self.node(id) {
            Some(n) => match n.resources.io {
                Some(io) => Some((io.base, io.len)),
                None => None,
            },
            None => None,
        }
    }

    /// The configuration window of `id`, if it was declared with one.
    pub fn config_of_object(&self, id: ObjectId) -> (r: Option<(u64, u64)>)
        requires
            self.wf(),
        ensures
            r == match device(self@, id) {
                Some(n) => n.resources.config,
                None => None,
            },
    {
        match self.node(id) {
            Some(n) => n.resources.config,
            None => None,
        }
    }

    /// Whether `id` cannot follow a scattered buffer.
    pub fn requires_contiguity(&self, id: ObjectId) -> (b: bool)
        requires
            self.wf(),
        ensures
            b == (device(self@, id) matches Some(n) && n.contiguous),
    {
        match self.node(id) {
            Some(n) => n.contiguous,
            None => false,
        }
    }

    /// Records whether `id` cannot follow a scattered buffer.
    pub fn set_requires_contiguity(&mut self, id: ObjectId, required: bool) -> (r: Result<
        (),
        KError,
    >)
        requires
            old(self).wf(),
        ensures
            final(self).wf(),
            match device(old(self)@, id) {
                None => r == Err::<(), _>(KError::BadHandle) && final(self)@ == old(self)@,
                Some(n) => {
                    &&& r is Ok
                    &&& final(self)@ == with_device(
                        old(self)@,
                        id,
                        DeviceView { contiguous: required, ..n },
                    )
                },
            },
    {
        match self.node_mut(id) {
            None => Err(KError::BadHandle),
            Some(n) => {
                let ghost v = (*n)@;
                n.contiguous = required;
                assert((*n)@ =~= DeviceView { contiguous: required, ..v });
                Ok(())
            },
        }
    }

    /// Fills `out` with the interrupt lines of `id`; returns how many were
    /// written.
    pub fn intids_of_object(&self, id: ObjectId, out: &mut [u32]) -> (n: usize)
        requires
            self.wf(),
        ensures
            final(out)@.len() == old(out)@.len(),
            ({
                let lines = match device(self@, id) {
                    Some(d) => d.intids,
                    None => Seq::empty(),
                };
                &&& n == if lines.len() <= old(out)@.len() {
                    lines.len()
                } else {
                    old(out)@.len()
                }
                &&& forall|i: int|
                    0 <= i < old(out)@.len() ==> #[trigger] final(out)@[i] == if i < n {
                        lines[i]
                    } else {
                        old(out)@[i]
                    }
            }),
    {
        let node = match self.node(id) {
            None => {
                return 0;
            },
            Some(node) => node,
        };
        let len: usize = out.len();
        let mut n: usize = 0;
        while n < node.intids.len() && n < len
            invariant
                len == old(out)@.len(),
                out@.len() == len,
                n <= len,
                n <= node@.intids.len(),
                node@.intids == node.intids@,
                forall|i: int|
                    0 <= i < len ==> #[trigger] out@[i] == if i < n {
                        node@.intids[i]
                    } else {
                        old(out)@[i]
                    },
            decreases len - n,
        {
            out[n] = node.intids[n];
            n += 1;
        }
        n
    }

    /// Adds an interrupt line to `id`. [`KError::BadHandle`] if the graph does
    /// not have it, [`KError::LimitExceeded`] if it has as many as it may.
    pub fn add_intid(&mut self, id: ObjectId, intid: u32) -> (r: Result<(), KError>)
        requires
            old(self).wf(),
        ensures
            final(self).wf(),
            match device(old(self)@, id) {
                None => r == Err::<(), _>(KError::BadHandle) && final(self)@ == old(self)@,
                Some(n) => if n.intids.len() == MAX_IRQ_ROUTES {
                    r == Err::<(), _>(KError::LimitExceeded) && final(self)@ == old(self)@
                } else {
                    &&& r is Ok
                    &&& final(self)@ == with_device(
                        old(self)@,
                        id,
                        DeviceView { intids: n.intids.push(intid), ..n },
                    )
                },
            },
    {
        match self.node(id) {
            None => {
                return Err(KError::BadHandle);
            },
            Some(n) => {
                if n.intids.len() >= MAX_IRQ_ROUTES {
                    return Err(KError::LimitExceeded);
                }
            },
        }
        if let Some(n) = self.node_mut(id) {
            let ghost v = (*n)@;
            n.intids.push(intid);
            assert((*n)@ =~= DeviceView { intids: v.intids.push(intid), ..v });
        }
        Ok(())
    }

    /// Records the lease `id` translates through, and who holds it. Replaces
    /// one that ended without being noticed.
    pub fn set_aperture(
        &mut self,
        id: ObjectId,
        holder: ObjectId,
        aperture: DeviceAperture,
        expires_at: Option<u64>,
    ) -> (r: Result<(), KError>)
        requires
            old(self).wf(),
        ensures
            final(self).wf(),
            match device(old(self)@, id) {
                None => r == Err::<(), _>(KError::BadHandle) && final(self)@ == old(self)@,
                Some(n) => {
                    &&& r is Ok
                    &&& final(self)@ == with_device(
                        old(self)@,
                        id,
                        DeviceView {
                            lease: Some(Lease { holder, aperture, spent: 0, expires_at }),
                            ..n
                        },
                    )
                },
            },
    {
        let mut found: bool = false;
        if let Some(n) = self.node_mut(id) {
            let ghost v = (*n)@;
            let lease = Lease { holder, aperture, spent: 0, expires_at };
            n.lease = Some(lease);
            assert((*n)@ =~= DeviceView { lease: Some(lease), ..v });
            found = true;
        }
        if found {
            Ok(())
        } else {
            Err(KError::BadHandle)
        }
    }

    /// Pushes the deadline of `id`'s lease out, if `holder` holds it. Answers
    /// whether it does.
    pub fn renew_lease(&mut self, id: ObjectId, holder: ObjectId, expires_at: Option<u64>) -> (b:
        bool)
        requires
            old(self).wf(),
        ensures
            final(self).wf(),
            b == (lease_holder(old(self)@, id) == Some(holder)),
            final(self)@ == (if b {
                let n = device(old(self)@, id)->0;
                with_device(
                    old(self)@,
                    id,
                    DeviceView { lease: Some(Lease { expires_at, ..n.lease->0 }), ..n },
                )
            } else {
                old(self)@
            }),
    {
        let lease: Lease = match self.lease_of_object(id) {
            None => {
                return false;
            },
            Some(l) => l,
        };
        if lease.holder != holder {
            return false;
        }
        if let Some(n) = self.node_mut(id) {
            let ghost v = (*n)@;
            n.lease = Some(
                Lease {
                    holder: lease.holder,
                    aperture: lease.aperture,
                    spent: lease.spent,
                    expires_at,
                },
            );
            assert((*n)@ =~= DeviceView { lease: Some(Lease { expires_at, ..v.lease->0 }), ..v });
        }
        true
    }

    /// Ends the lease of `id` and returns it, or `None` when there was none.
    pub fn end_lease(&mut self, id: ObjectId) -> (r: Option<Lease>)
        requires
            old(self).wf(),
        ensures
            final(self).wf(),
            match device(old(self)@, id) {
                Some(n) => {
                    &&& r == n.lease
                    &&& final(self)@ == with_device(
                        old(self)@,
                        id,
                        DeviceView { lease: None, ..n },
                    )
                },
                None => r is None && final(self)@ == old(self)@,
            },
    {
        let mut was: Option<Lease> = None;
        if let Some(n) = self.node_mut(id) {
            let ghost v = (*n)@;
            was = n.lease;
            n.lease = None;
            assert((*n)@ =~= DeviceView { lease: None, ..v });
        }
        was
    }

    /// Takes `len` bytes from the lease of `id`, returning the device-visible
    /// address. `None` when there is no lease, when too little of it is left, or
    /// when the addresses run out first.
    pub fn allocate_in_aperture(&mut self, id: ObjectId, len: u64) -> (r: Option<u64>)
        requires
            old(self).wf(),
        ensures
            final(self).wf(),
            match device(old(self)@, id) {
                Some(n) => match n.lease {
                    Some(l) => {
                        &&& r == l.piece(len)
                        &&& final(self)@ == (if r is Some {
                            with_device(
                                old(self)@,
                                id,
                                DeviceView { lease: Some(l.spent_more(len)), ..n },
                            )
                        } else {
                            old(self)@
                        })
                    },
                    None => r is None && final(self)@ == old(self)@,
                },
                None => r is None && final(self)@ == old(self)@,
            },
    {
        let lease: Lease = match self.lease_of_object(id) {
            None => {
                return None;
            },
            Some(l) => l,
        };
        proof {
            lemma_device_at(self@, id);
        }
        if len > lease.aperture.len - lease.spent || lease.spent > u64::MAX
            - lease.aperture.base {
            return None;
        }
        if let Some(n) = self.node_mut(id) {
            let ghost v = (*n)@;
            n.lease = Some(
                Lease {
                    holder: lease.holder,
                    aperture: lease.aperture,
                    spent: lease.spent + len,
                    expires_at: lease.expires_at,
                },
            );
            assert((*n)@ =~= DeviceView { lease: Some(lease.spent_more(len)), ..v });
        }
        Some(lease.aperture.base + lease.spent)
    }

    /// Records that line `intid` of `id` goes to `port`, received by `holder`.
    /// [`KError::InvalidMapping`] for a line the device does not have, and
    /// [`KError::AlreadyMapped`] for one that goes somewhere already.
    pub fn route_irq_line(&mut self, id: ObjectId, intid: u32, port: PortId, holder: ObjectId) -> (r:
        Result<(), KError>)
        requires
            old(self).wf(),
        ensures
            final(self).wf(),
            match device(old(self)@, id) {
                None => r == Err::<(), _>(KError::BadHandle) && final(self)@ == old(self)@,
                Some(n) => if !n.intids.contains(intid) {
                    r == Err::<(), _>(KError::InvalidMapping) && final(self)@ == old(self)@
                } else if slots::any(n.routes, on_line(intid)) {
                    r == Err::<(), _>(KError::AlreadyMapped) && final(self)@ == old(self)@
                } else if n.routes.len() == MAX_IRQ_ROUTES {
                    r == Err::<(), _>(KError::LimitExceeded) && final(self)@ == old(self)@
                } else {
                    &&& r is Ok
                    &&& final(self)@ == with_device(
                        old(self)@,
                        id,
                        DeviceView {
                            routes: n.routes.push(IrqRoute { intid, port, holder }),
                            ..n
                        },
                    )
                },
            },
    {
        match self.node(id) {
            None => {
                return Err(KError::BadHandle);
            },
            Some(n) => {
                let mut wired: bool = false;
                let mut i: usize = 0;
                while i < n.intids.len()
                    invariant
                        i <= n.intids@.len(),
                        wired == n.intids@.take(i as int).contains(intid),
                    decreases n.intids@.len() - i,
                {
                    proof {
                        let a = n.intids@.take(i as int);
                        let b = n.intids@.take(i + 1);
                        assert(b =~= a.push(n.intids@[i as int]));
                        if a.contains(intid) {
                            let k = choose|k: int| 0 <= k < a.len() && a[k] == intid;
                            assert(b[k] == intid);
                        }
                        if n.intids@[i as int] == intid {
                            assert(b[i as int] == intid);
                        }
                        if b.contains(intid) && n.intids@[i as int] != intid {
                            let k = choose|k: int| 0 <= k < b.len() && b[k] == intid;
                            assert(a[k] == intid);
                        }
                    }
                    if n.intids[i] == intid {
                        wired = true;
                    }
                    i += 1;
                }
                assert(n.intids@.take(i as int) =~= n.intids@);
                if !wired {
                    return Err(KError::InvalidMapping);
                }
                let mut k: usize = 0;
                while k < n.routes.len()
                    invariant
                        device(self@, id) == Some(n@),
                        *self == *old(self),
                        n@.wf(),
                        k <= n.routes@.len(),
                        n@.intids.contains(intid),
                        self.wf(),
                        forall|m: int| 0 <= m < k ==> !on_line(intid)(#[trigger] n.routes@[m]),
                    decreases n.routes@.len() - k,
                {
                    if n.routes[k].intid == intid {
                        assert(on_line(intid)(n@.routes[k as int]));
                        return Err(KError::AlreadyMapped);
                    }
                    k += 1;
                }
                if n.routes.len() >= MAX_IRQ_ROUTES {
                    return Err(KError::LimitExceeded);
                }
            },
        }
        if let Some(n) = self.node_mut(id) {
            let ghost v = (*n)@;
            n.routes.push(IrqRoute { intid, port, holder });
            assert((*n)@ =~= DeviceView {
                routes: v.routes.push(IrqRoute { intid, port, holder }),
                ..v
            });
        }
        Ok(())
    }

    /// Takes the first route of `id` off the record and returns it.
    pub fn end_irq_route(&mut self, id: ObjectId) -> (r: Option<IrqRoute>)
        requires
            old(self).wf(),
        ensures
            final(self).wf(),
            r == first_route(old(self)@, id),
            final(self)@ == (if r is Some {
                let n = device(old(self)@, id)->0;
                with_device(old(self)@, id, DeviceView { routes: n.routes.drop_first(), ..n })
            } else {
                old(self)@
            }),
    {
        if self.irq_route_of_object(id).is_none() {
            return None;
        }
        let mut was: Option<IrqRoute> = None;
        if let Some(n) = self.node_mut(id) {
            let ghost v = (*n)@;
            let first = n.routes.remove(0);
            was = Some(first);
            assert(v.routes.remove(0) =~= v.routes.drop_first());
            assert((*n)@ =~= DeviceView { routes: v.routes.drop_first(), ..v });
        }
        was
    }

    /// Registers `endpoint` as depending on `id`.
    pub fn add_dependent(&mut self, id: ObjectId, endpoint: EndpointId) -> (r: Result<(), KError>)
        requires
            old(self).wf(),
            endpoint.side < 2,
        ensures
            final(self).wf(),
            match device(old(self)@, id) {
                None => r == Err::<(), _>(KError::BadHandle) && final(self)@ == old(self)@,
                Some(n) => if n.dependents.len() == MAX_DEPENDENTS {
                    r == Err::<(), _>(KError::LimitExceeded) && final(self)@ == old(self)@
                } else {
                    &&& r is Ok
                    &&& final(self)@ == with_device(
                        old(self)@,
                        id,
                        DeviceView { dependents: n.dependents.push(endpoint), ..n },
                    )
                },
            },
    {
        match self.node(id) {
            None => {
                return Err(KError::BadHandle);
            },
            Some(n) => {
                if n.dependents.len() >= MAX_DEPENDENTS {
                    return Err(KError::LimitExceeded);
                }
            },
        }
        if let Some(n) = self.node_mut(id) {
            let ghost v = (*n)@;
            n.dependents.push(endpoint);
            assert((*n)@ =~= DeviceView { dependents: v.dependents.push(endpoint), ..v });
        }
        Ok(())
    }

    /// Stops offering `id`. Answers whether this changed anything.
    pub fn quarantine(&mut self, id: ObjectId) -> (b: bool)
        requires
            old(self).wf(),
        ensures
            final(self).wf(),
            b == (device(old(self)@, id) matches Some(n) && !n.quarantined),
            final(self)@ == (if b {
                with_device(
                    old(self)@,
                    id,
                    DeviceView { quarantined: true, ..device(old(self)@, id)->0 },
                )
            } else {
                old(self)@
            }),
    {
        if !self.contains(id) || self.is_quarantined(id) {
            return false;
        }
        if let Some(n) = self.node_mut(id) {
            let ghost v = (*n)@;
            n.quarantined = true;
            assert((*n)@ =~= DeviceView { quarantined: true, ..v });
        }
        true
    }

    /// Offers a quarantined device again. Answers whether it was quarantined.
    pub fn release_from_quarantine(&mut self, id: ObjectId) -> (b: bool)
        requires
            old(self).wf(),
        ensures
            final(self).wf(),
            b == (device(old(self)@, id) matches Some(n) && n.quarantined),
            final(self)@ == (if b {
                with_device(
                    old(self)@,
                    id,
                    DeviceView { quarantined: false, ..device(old(self)@, id)->0 },
                )
            } else {
                old(self)@
            }),
    {
        if !self.is_quarantined(id) {
            return false;
        }
        if let Some(n) = self.node_mut(id) {
            let ghost v = (*n)@;
            n.quarantined = false;
            assert((*n)@ =~= DeviceView { quarantined: false, ..v });
        }
        true
    }

    /// Arms or disarms the interrupt of `id` as a system wakeup source.
    pub fn set_wake_source(&mut self, id: ObjectId, armed: bool) -> (r: Result<(), KError>)
        requires
            old(self).wf(),
        ensures
            final(self).wf(),
            match device(old(self)@, id) {
                None => r == Err::<(), _>(KError::BadHandle) && final(self)@ == old(self)@,
                Some(n) => {
                    &&& r is Ok
                    &&& final(self)@ == with_device(
                        old(self)@,
                        id,
                        DeviceView { wake_armed: armed, ..n },
                    )
                },
            },
    {
        let mut found: bool = false;
        if let Some(n) = self.node_mut(id) {
            let ghost v = (*n)@;
            n.wake_armed = armed;
            assert((*n)@ =~= DeviceView { wake_armed: armed, ..v });
            found = true;
        }
        if found {
            Ok(())
        } else {
            Err(KError::BadHandle)
        }
    }

    /// The device whose armed line `intid` is, if any.
    pub fn armed_wake_source(&self, intid: u32) -> (r: Option<ObjectId>)
        requires
            self.wf(),
        ensures
            ({
                let at = slots::first(self@, armed_on(intid));
                match r {
                    Some(id) => at < MAX_DEVICES && self@[at]->0.object == id,
                    None => at == MAX_DEVICES,
                }
            }),
    {
        let ghost p = armed_on(intid);
        let mut i: usize = 0;
        while i < MAX_DEVICES
            invariant
                self.wf(),
                p == armed_on(intid),
                i <= MAX_DEVICES,
                forall|j: int| 0 <= j < i ==> !p(#[trigger] self@[j]),
            decreases MAX_DEVICES - i,
        {
            assert(self@[i as int] == node_view(self.nodes@[i as int]));
            if let Some(n) = &self.nodes[i] {
                if n.wake_armed {
                    let mut k: usize = 0;
                    while k < n.intids.len()
                        invariant
                            self.wf(),
                            p == armed_on(intid),
                            i < MAX_DEVICES,
                            k <= n.intids@.len(),
                            self@[i as int] == Some(n@),
                            n@.wake_armed,
                            forall|j: int| 0 <= j < i ==> !p(#[trigger] self@[j]),
                            forall|m: int| 0 <= m < k ==> n.intids@[m] != intid,
                        decreases n.intids@.len() - k,
                    {
                        if n.intids[k] == intid {
                            proof {
                                assert(n@.intids[k as int] == intid);
                                slots::lemma_first_is(self@, p, i as int);
                            }
                            return Some(n.object);
                        }
                        k += 1;
                    }
                }
            }
            i += 1;
        }
        proof {
            slots::lemma_first_is(self@, p, i as int);
        }
        None
    }
}

/// The predicate of a route of line `intid`.
pub open spec fn on_line(intid: u32) -> spec_fn(IrqRoute) -> bool {
    |r: IrqRoute| r.intid == intid
}

impl Default for DeviceTable {
    fn default() -> (t: DeviceTable)
        ensures
            t.wf(),
            t@ == slots::empty::<DeviceView>(MAX_DEVICES as nat),
    {
        DeviceTable::new()
    }
}

/// What is taken from a lease lies inside its aperture and is never taken
/// again: as long as the lease lasts, a later piece starts where an earlier one
/// ends, or after.
pub proof fn law_lease_addresses_are_not_reissued(l: Lease, len: u64, later: Lease, more: u64)
    requires
        l.spent <= l.aperture.len,
        l.piece(len) is Some,
        later.aperture == l.aperture,
        l.spent_more(len).spent <= later.spent <= l.aperture.len,
        later.piece(more) is Some,
    ensures
        l.aperture.base <= l.piece(len)->0,
        l.piece(len)->0 + len <= later.piece(more)->0,
        later.piece(more)->0 + more <= l.aperture.base + l.aperture.len,
{
}

/// A device is found by its id, in the one place that has it, and not found only
/// when no place does.
pub proof fn law_a_device_is_found_by_its_id(t: DevicesView, id: ObjectId)
    requires
        devices_wf(t),
    ensures
        match device(t, id) {
            Some(n) => n.object == id && 0 <= device_slot(t, id) < MAX_DEVICES && t[device_slot(
                t,
                id,
            )] == Some(n),
            None => forall|k: int|
                0 <= k < MAX_DEVICES ==> (#[trigger] t[k] matches Some(n) ==> n.object != id),
        },
        0 <= device_vacancy(t) <= MAX_DEVICES,
        device_vacancy(t) < MAX_DEVICES ==> t[device_vacancy(t)] is None,
        device_vacancy(t) == MAX_DEVICES ==> forall|k: int|
            0 <= k < MAX_DEVICES ==> #[trigger] t[k] is Some,
        device(t, id) is None ==> parent(t, id) is None && lease_holder(t, id) is None
            && first_route(t, id) is None,
        device(t, id) matches Some(n) ==> {
            &&& parent(t, id) == n.parent
            &&& n.lease is None ==> lease_holder(t, id) is None
            &&& n.lease matches Some(l) ==> lease_holder(t, id) == Some(l.holder)
            &&& n.routes.len() == 0 ==> first_route(t, id) is None
            &&& n.routes.len() > 0 ==> first_route(t, id) == Some(n.routes[0])
        },
{
    slots::lemma_first(t, node_of(id));
    slots::lemma_first(t, slots::free::<DeviceView>());
    if device(t, id) is None {
        assert forall|k: int| 0 <= k < MAX_DEVICES implies (#[trigger] t[k] matches Some(n)
            ==> n.object != id) by {
            assert(!node_of(id)(t[k]));
        }
    }
    if device_vacancy(t) == MAX_DEVICES {
        assert forall|k: int| 0 <= k < MAX_DEVICES implies #[trigger] t[k] is Some by {
            assert(!slots::free::<DeviceView>()(t[k]));
        }
    }
}

/// A change to a device is a change to that device: it is found as it was
/// changed, and every other device as it was.
pub proof fn law_a_changed_device_is_the_only_one(
    t: DevicesView,
    id: ObjectId,
    n: DeviceView,
    other: ObjectId,
)
    requires
        devices_wf(t),
        device(t, id) is Some,
        n.object == id,
        other != id,
    ensures
        device(with_device(t, id, n), id) == Some(n),
        device(with_device(t, id, n), other) == device(t, other),
        with_device(t, id, n).len() == MAX_DEVICES,
{
    let u = with_device(t, id, n);
    let i = device_slot(t, id);
    slots::lemma_first(t, node_of(id));
    slots::lemma_first(t, node_of(other));
    assert forall|k: int| 0 <= k < i implies !node_of(id)(#[trigger] u[k]) by {
        assert(!node_of(id)(t[k]));
    }
    slots::lemma_first_is(u, node_of(id), i);
    let j = device_slot(t, other);
    assert forall|k: int| 0 <= k < j implies !node_of(other)(#[trigger] u[k]) by {
        assert(!node_of(other)(t[k]));
    }
    slots::lemma_first_is(u, node_of(other), j);
}

/// A newly registered device has its resources and nothing else: no parent, no
/// lines, no lease, no routes, nobody that depends on it, and it is neither armed
/// nor quarantined.
pub proof fn law_a_new_device_has_only_its_resources(object: ObjectId, resources: Resources)
    ensures
        ({
            let n = DeviceView::fresh(object, resources);
            &&& n.wf()
            &&& n.object == object && n.resources == resources
            &&& n.parent is None && n.lease is None
            &&& n.intids.len() == 0 && n.routes.len() == 0 && n.dependents.len() == 0
            &&& !n.wake_armed && !n.quarantined && !n.contiguous
        }),
{
}

proof fn lemma_devices_where(t: DevicesView, p: spec_fn(DeviceView) -> bool, id: ObjectId)
    ensures
        devices_where(t, p).contains(id) <==> exists|i: int|
            0 <= i < t.len() && (#[trigger] t[i] matches Some(n) && n.object == id && p(n)),
    decreases t.len(),
{
    if t.len() > 0 {
        let rest = t.drop_last();
        let d = devices_where(rest, p);
        let all = devices_where(t, p);
        lemma_devices_where(rest, p, id);
        if all.contains(id) {
            let k = choose|k: int| 0 <= k < all.len() && all[k] == id;
            if k < d.len() {
                assert(d[k] == id);
                assert(d.contains(id));
                let i = choose|i: int|
                    0 <= i < rest.len() && (#[trigger] rest[i] matches Some(n) && n.object == id
                        && p(n));
                assert(t[i] == rest[i]);
            } else {
                assert(t[t.len() - 1] matches Some(n) && n.object == id && p(n));
            }
        }
        if exists|i: int|
            0 <= i < t.len() && (#[trigger] t[i] matches Some(n) && n.object == id && p(n)) {
            let i = choose|i: int|
                0 <= i < t.len() && (#[trigger] t[i] matches Some(n) && n.object == id && p(n));
            if i < rest.len() {
                assert(rest[i] == t[i]);
                let k = choose|k: int| 0 <= k < d.len() && d[k] == id;
                assert(all[k] == id);
            } else {
                assert(all.last() == id);
            }
        }
    }
}

/// Devices are listed exactly: those behind another, those leased to a holder,
/// those whose lease has run out, those that interrupt a holder, and all of them.
pub proof fn law_devices_are_listed_exactly(
    t: DevicesView,
    who: ObjectId,
    now: u64,
    id: ObjectId,
    i: int,
)
    requires
        devices_wf(t),
        0 <= i < MAX_DEVICES,
        t[i] matches Some(n) && n.object == id,
    ensures
        devices_where(t, any_device()).contains(id),
        devices_where(t, behind(who)).contains(id) <==> t[i]->0.parent == Some(who),
        devices_where(t, leased_to(who)).contains(id) <==> (t[i]->0.lease matches Some(l)
            && l.holder == who),
        devices_where(t, lease_lapsed(now)).contains(id) <==> (t[i]->0.lease matches Some(l) && (
        l.expires_at matches Some(at) && at <= now)),
        devices_where(t, routed_to(who)).contains(id) <==> exists|k: int|
            0 <= k < t[i]->0.routes.len() && (#[trigger] t[i]->0.routes[k]).holder == who,
{
    lemma_devices_where(t, any_device(), id);
    lemma_devices_where(t, behind(who), id);
    lemma_devices_where(t, leased_to(who), id);
    lemma_devices_where(t, lease_lapsed(now), id);
    lemma_devices_where(t, routed_to(who), id);
    assert(any_device()(t[i]->0));
    let n = t[i]->0;
    assert forall|j: int|
        0 <= j < MAX_DEVICES && (#[trigger] t[j] matches Some(m) && m.object == id) implies j
        == i by {
        if j < i {
            assert(t[j]->0.object != t[i]->0.object);
        }
        if i < j {
            assert(t[i]->0.object != t[j]->0.object);
        }
    }
    if routed_to(who)(n) {
        let k = choose|k: int| 0 <= k < n.routes.len() && received_by(who)(#[trigger] n.routes[k]);
        assert(n.routes[k].holder == who);
    }
    if exists|k: int| 0 <= k < t[i]->0.routes.len() && (#[trigger] t[i]->0.routes[k]).holder == who {
        let k = choose|k: int|
            0 <= k < t[i]->0.routes.len() && (#[trigger] t[i]->0.routes[k]).holder == who;
        assert(received_by(who)(n.routes[k]));
        assert(routed_to(who)(n));
    }
}

/// A device sits below another exactly when it is that device, or its parent
/// sits below it.
pub proof fn law_below_is_through_the_parent(t: DevicesView, id: ObjectId, root: ObjectId)
    ensures
        id == root ==> sits_below(t, id, root),
        id != root ==> (sits_below(t, id, root) <==> (parent(t, id) matches Some(p) && sits_below(
            t,
            p,
            root,
        ))),
{
    assert(above(t, id, 0) == Some(id));
    if id != root {
        if sits_below(t, id, root) {
            let n = choose|n: nat| #[trigger] above(t, id, n) == Some(root);
            lemma_above_from_parent(t, id, (n - 1) as nat);
            assert(above(t, id, n) == Some(root));
            if let Some(p) = parent(t, id) {
                assert(above(t, p, (n - 1) as nat) == Some(root));
            }
        }
        if let Some(p) = parent(t, id) {
            if sits_below(t, p, root) {
                let n = choose|n: nat| #[trigger] above(t, p, n) == Some(root);
                lemma_above_from_parent(t, id, n);
                assert(above(t, id, n + 1) == Some(root));
            }
        }
    }
}

proof fn lemma_above_from_parent(t: DevicesView, id: ObjectId, n: nat)
    ensures
        above(t, id, n + 1) == match parent(t, id) {
            Some(p) => above(t, p, n),
            None => None,
        },
    decreases n,
{
    assert(above(t, id, 0) == Some(id));
    assert(above(t, id, 1) == parent(t, id));
    if n > 0 {
        lemma_above_from_parent(t, id, (n - 1) as nat);
    } else if let Some(p) = parent(t, id) {
        assert(above(t, p, 0) == Some(p));
    }
}

/// A lease gives addresses while they last: the next free ones of its aperture,
/// exactly when as many are left, and then that many fewer are.
pub proof fn law_a_lease_gives_its_next_addresses(l: Lease, len: u64)
    requires
        l.spent <= l.aperture.len,
        l.aperture.base + l.aperture.len <= u64::MAX,
    ensures
        l.piece(len) is Some <==> l.spent + len <= l.aperture.len,
        l.piece(len) matches Some(at) ==> at == l.aperture.base + l.spent,
        l.piece(len) is Some ==> {
            &&& l.spent_more(len).spent == l.spent + len
            &&& l.spent_more(len).holder == l.holder
            &&& l.spent_more(len).aperture == l.aperture
            &&& l.spent_more(len).expires_at == l.expires_at
        },
{
}

/// A line wakes the machine through a device that is armed and has that line.
pub proof fn law_an_armed_line_is_its_devices(n: DeviceView, intid: u32, r: IrqRoute)
    ensures
        armed_on(intid)(Some(n)) <==> n.wake_armed && exists|k: int|
            0 <= k < n.intids.len() && #[trigger] n.intids[k] == intid,
        !armed_on(intid)(None::<DeviceView>),
        on_line(intid)(r) <==> r.intid == intid,
{
    if n.intids.contains(intid) {
        let k = choose|k: int| 0 <= k < n.intids.len() && n.intids[k] == intid;
        assert(n.intids[k] == intid);
    }
}

} // verus!
