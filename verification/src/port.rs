//! Async event-delivery ports. A port preallocates one slot per
//! `(source, signal)` pair it listens to; edges coalesce onto the slot, so
//! delivery never allocates and never drops.
use vstd::prelude::*;
use crate::config::{MAX_BINDINGS, MAX_PORTS};
use crate::error::KError;
use crate::object::ObjectId;
use crate::slots;
use crate::thread::ThreadId;

verus! {

/// A raw port identifier: an index into the port table.
#[derive(Clone, Copy, PartialEq, Eq, Debug, Structural)]
pub struct PortId(pub usize);

/// One preallocated `(source, signal)` slot. `pending` is the coalesced edge
/// count; `asserted` means at least one undrained delivery is waiting.
#[derive(Clone, Copy, PartialEq, Eq, Debug, Structural)]
pub struct Binding {
    pub source: u64,
    pub signal: u8,
    pub pending: u32,
    pub asserted: bool,
}

/// A drained event: which `(source, signal)` fired and how many edges coalesced
/// into it.
#[derive(Clone, Copy, PartialEq, Eq, Debug, Structural)]
pub struct PortEvent {
    pub source: u64,
    pub signal: u8,
    pub pending: u32,
}

/// A single port: a fixed set of preallocated bindings, a coalescing counter for
/// observability, and at most one blocked drainer.
pub struct Port {
    bindings: Vec<Option<Binding>>,
    /// Deliveries that collapsed onto an already-pending slot.
    coalesced: u64,
    /// The thread parked in a drain with nothing asserted, if any.
    blocked_drainer: Option<ThreadId>,
    /// The object this port is handle-addressable by, if bound.
    object: Option<ObjectId>,
}

/// What a [`Port`] holds.
#[verifier::ext_equal]
pub struct PortView {
    pub bindings: Seq<Option<Binding>>,
    pub coalesced: u64,
    pub blocked_drainer: Option<ThreadId>,
    pub object: Option<ObjectId>,
}

/// The predicate of the slot bound to `(source, signal)`.
pub open spec fn bound(source: u64, signal: u8) -> spec_fn(Option<Binding>) -> bool {
    |o: Option<Binding>| o matches Some(b) && b.source == source && b.signal == signal
}

/// The predicate of a slot with something to drain.
pub open spec fn asserted() -> spec_fn(Option<Binding>) -> bool {
    |o: Option<Binding>| o matches Some(b) && b.asserted
}

/// `a + b`, held at the largest value that fits.
pub open spec fn saturating(a: u32, b: u32) -> u32 {
    if a + b > u32::MAX {
        u32::MAX
    } else {
        (a + b) as u32
    }
}

impl PortView {
    /// A port nothing is bound to.
    pub open spec fn fresh() -> PortView {
        PortView {
            bindings: slots::empty(MAX_BINDINGS as nat),
            coalesced: 0,
            blocked_drainer: None,
            object: None,
        }
    }

    /// The port's invariant: a slot with edges pending is asserted, and no
    /// pair is bound twice.
    pub open spec fn wf(self) -> bool {
        &&& self.bindings.len() == MAX_BINDINGS
        &&& forall|i: int|
            0 <= i < MAX_BINDINGS ==> ((#[trigger] self.bindings[i]) matches Some(b) ==> (b.pending
                > 0 ==> b.asserted))
        &&& forall|i: int, j: int|
            0 <= i < j < MAX_BINDINGS && (#[trigger] self.bindings[i]) is Some && (
            #[trigger] self.bindings[j]) is Some ==> self.bindings[i]->0.source
                != self.bindings[j]->0.source || self.bindings[i]->0.signal
                != self.bindings[j]->0.signal
    }

    /// Where `(source, signal)` is bound, or the capacity.
    pub open spec fn slot(self, source: u64, signal: u8) -> int {
        slots::first(self.bindings, bound(source, signal))
    }

    /// Whether `(source, signal)` is bound.
    pub open spec fn listens(self, source: u64, signal: u8) -> bool {
        self.slot(source, signal) < self.bindings.len()
    }

    /// The first free slot, or the capacity.
    pub open spec fn vacancy(self) -> int {
        slots::first(self.bindings, slots::free::<Binding>())
    }

    /// The first slot with something to drain, or the capacity.
    pub open spec fn ready(self) -> int {
        slots::first(self.bindings, asserted())
    }

    /// Whether a drain would return an event.
    pub open spec fn has_event(self) -> bool {
        self.ready() < self.bindings.len()
    }

    /// The event a drain would return.
    pub open spec fn event(self) -> PortEvent {
        let b = self.bindings[self.ready()]->0;
        PortEvent { source: b.source, signal: b.signal, pending: b.pending }
    }

    /// The port after a drain takes that event.
    pub open spec fn drained(self) -> PortView {
        let b = self.bindings[self.ready()]->0;
        PortView {
            bindings: self.bindings.update(
                self.ready(),
                Some(Binding { pending: 0, asserted: false, ..b }),
            ),
            ..self
        }
    }

    /// The port after `edges` edges from `(source, signal)`.
    pub open spec fn delivered(self, source: u64, signal: u8, edges: u32) -> PortView {
        let i = self.slot(source, signal);
        if i < self.bindings.len() {
            let b = self.bindings[i]->0;
            PortView {
                bindings: self.bindings.update(
                    i,
                    Some(
                        Binding { pending: saturating(b.pending, edges), asserted: true, ..b },
                    ),
                ),
                coalesced: if b.pending > 0 && self.coalesced < u64::MAX {
                    (self.coalesced + 1) as u64
                } else {
                    self.coalesced
                },
                ..self
            }
        } else {
            self
        }
    }

    /// The port after `(source, signal)`, unbound so far, is bound.
    pub open spec fn with_binding(self, source: u64, signal: u8) -> PortView {
        PortView {
            bindings: self.bindings.update(
                self.vacancy(),
                Some(Binding { source, signal, pending: 0, asserted: false }),
            ),
            ..self
        }
    }

    /// The port after `(source, signal)` is released.
    pub open spec fn without_binding(self, source: u64, signal: u8) -> PortView {
        if self.listens(source, signal) {
            PortView { bindings: self.bindings.update(self.slot(source, signal), None), ..self }
        } else {
            self
        }
    }
}

impl View for Port {
    type V = PortView;

    closed spec fn view(&self) -> PortView {
        PortView {
            bindings: self.bindings@,
            coalesced: self.coalesced,
            blocked_drainer: self.blocked_drainer,
            object: self.object,
        }
    }
}

impl Port {
    /// The port's invariant.
    pub open spec fn wf(&self) -> bool {
        self@.wf()
    }

    pub fn new() -> (p: Port)
        ensures
            p.wf(),
            p@ == PortView::fresh(),
    {
        Port {
            bindings: slots::empty_slots(MAX_BINDINGS),
            coalesced: 0,
            blocked_drainer: None,
            object: None,
        }
    }

    /// Binds this port to the object it is addressed by.
    pub fn set_object(&mut self, id: ObjectId)
        ensures
            final(self)@ == (PortView { object: Some(id), ..old(self)@ }),
    {
        self.object = Some(id);
    }

    /// The object bound to this port, if any.
    pub fn object(&self) -> (r: Option<ObjectId>)
        ensures
            r == self@.object,
    {
        self.object
    }

    /// Preallocates a slot for `(source, signal)`. One slot per pair: a
    /// duplicate bind is [`KError::Protocol`], and a full port is
    /// [`KError::OutOfMemory`].
    pub fn bind(&mut self, source: u64, signal: u8) -> (r: Result<(), KError>)
        requires
            old(self).wf(),
        ensures
            final(self).wf(),
            match r {
                Ok(_) => {
                    &&& !old(self)@.listens(source, signal)
                    &&& old(self)@.vacancy() < MAX_BINDINGS
                    &&& final(self)@ == old(self)@.with_binding(source, signal)
                },
                Err(e) => {
                    &&& final(self)@ == old(self)@
                    &&& if old(self)@.listens(source, signal) {
                        e == KError::Protocol
                    } else {
                        e == KError::OutOfMemory && old(self)@.vacancy() == MAX_BINDINGS
                    }
                },
            },
    {
        proof {
            slots::lemma_first(self@.bindings, bound(source, signal));
        }
        if self.find(source, signal).is_some() {
            return Err(KError::Protocol);
        }
        match slots::find_free(&self.bindings) {
            None => Err(KError::OutOfMemory),
            Some(slot) => {
                self.bindings[slot] = Some(
                    Binding { source, signal, pending: 0, asserted: false },
                );
                assert forall|i: int, j: int|
                    0 <= i < j < MAX_BINDINGS && (#[trigger] self@.bindings[i]) is Some && (
                    #[trigger] self@.bindings[j]) is Some implies self@.bindings[i]->0.source
                    != self@.bindings[j]->0.source || self@.bindings[i]->0.signal
                    != self@.bindings[j]->0.signal by {
                    assert(!bound(source, signal)(old(self)@.bindings[i]));
                    assert(!bound(source, signal)(old(self)@.bindings[j]));
                }
                Ok(())
            },
        }
    }

    /// Releases the `(source, signal)` slot, discarding whatever had coalesced
    /// onto it: the pending edges belong to a binding that no longer exists.
    /// Returns whether there was one. A blocked drainer is not woken.
    pub fn unbind(&mut self, source: u64, signal: u8) -> (was: bool)
        requires
            old(self).wf(),
        ensures
            final(self).wf(),
            was == old(self)@.listens(source, signal),
            final(self)@ == old(self)@.without_binding(source, signal),
            !final(self)@.listens(source, signal),
    {
        proof {
            slots::lemma_first(self@.bindings, bound(source, signal));
        }
        match self.find(source, signal) {
            Some(idx) => {
                self.bindings[idx] = None;
                proof {
                    assert forall|j: int| 0 <= j < MAX_BINDINGS implies !bound(source, signal)(
                        #[trigger] self@.bindings[j],
                    ) by {
                        if j != idx && bound(source, signal)(self@.bindings[j]) {
                            let lo = if j < idx {
                                j
                            } else {
                                idx as int
                            };
                            let hi = if j < idx {
                                idx as int
                            } else {
                                j
                            };
                            assert(old(self)@.bindings[lo] is Some);
                            assert(old(self)@.bindings[hi] is Some);
                        }
                    }
                    slots::lemma_first_is(
                        self@.bindings,
                        bound(source, signal),
                        MAX_BINDINGS as int,
                    );
                }
                true
            },
            None => false,
        }
    }

    /// Delivers `edges` edges to the `(source, signal)` binding, coalescing them
    /// onto any already-pending count. Returns whether a binding matched (an
    /// unbound source is a no-op for this port).
    pub fn deliver(&mut self, source: u64, signal: u8, edges: u32) -> (matched: bool)
        requires
            old(self).wf(),
        ensures
            final(self).wf(),
            matched == old(self)@.listens(source, signal),
            final(self)@ == old(self)@.delivered(source, signal, edges),
    {
        proof {
            slots::lemma_first(self@.bindings, bound(source, signal));
        }
        match self.find(source, signal) {
            None => false,
            Some(idx) => {
                if let Some(b) = self.bindings[idx] {
                    if b.pending > 0 {
                        self.coalesced = self.coalesced.saturating_add(1);
                    }
                    self.bindings[idx] = Some(
                        Binding {
                            source: b.source,
                            signal: b.signal,
                            pending: b.pending.saturating_add(edges),
                            asserted: true,
                        },
                    );
                    assert(bound(source, signal)(old(self)@.bindings[idx as int]));
                    assert forall|i: int, j: int|
                        0 <= i < j < MAX_BINDINGS && (#[trigger] self@.bindings[i]) is Some && (
                        #[trigger] self@.bindings[j]) is Some implies self@.bindings[i]->0.source
                        != self@.bindings[j]->0.source || self@.bindings[i]->0.signal
                        != self@.bindings[j]->0.signal by {
                        assert(old(self)@.bindings[i] is Some);
                        assert(old(self)@.bindings[j] is Some);
                    }
                }
                true
            },
        }
    }

    /// Whether anything on this port is asserted: whether a drain would return
    /// without parking.
    pub fn is_asserted(&self) -> (b: bool)
        requires
            self.wf(),
        ensures
            b == self@.has_event(),
    {
        self.next_asserted().is_some()
    }

    /// Drains one asserted binding, returning its coalesced event and resetting
    /// the slot. `None` if nothing is asserted.
    pub fn drain(&mut self) -> (r: Option<PortEvent>)
        requires
            old(self).wf(),
        ensures
            final(self).wf(),
            match r {
                Some(e) => {
                    &&& old(self)@.has_event()
                    &&& e == old(self)@.event()
                    &&& final(self)@ == old(self)@.drained()
                },
                None => !old(self)@.has_event() && final(self)@ == old(self)@,
            },
    {
        proof {
            slots::lemma_first(self@.bindings, asserted());
        }
        match self.next_asserted() {
            None => None,
            Some(idx) => match self.bindings[idx] {
                None => None,
                Some(b) => {
                    self.bindings[idx] = Some(
                        Binding { source: b.source, signal: b.signal, pending: 0, asserted: false },
                    );
                    assert forall|i: int, j: int|
                        0 <= i < j < MAX_BINDINGS && (#[trigger] self@.bindings[i]) is Some && (
                        #[trigger] self@.bindings[j]) is Some implies self@.bindings[i]->0.source
                        != self@.bindings[j]->0.source || self@.bindings[i]->0.signal
                        != self@.bindings[j]->0.signal by {
                        assert(old(self)@.bindings[i] is Some);
                        assert(old(self)@.bindings[j] is Some);
                    }
                    Some(PortEvent { source: b.source, signal: b.signal, pending: b.pending })
                },
            },
        }
    }

    /// The coalescing count (observability).
    pub fn coalesced(&self) -> (n: u64)
        ensures
            n == self@.coalesced,
    {
        self.coalesced
    }

    /// Records the thread parked draining this port (nothing asserted).
    pub fn set_blocked_drainer(&mut self, thread: Option<ThreadId>)
        ensures
            final(self)@ == (PortView { blocked_drainer: thread, ..old(self)@ }),
    {
        self.blocked_drainer = thread;
    }

    /// Whether a thread is parked draining this port.
    pub fn has_blocked_drainer(&self) -> (b: bool)
        ensures
            b == (self@.blocked_drainer is Some),
    {
        self.blocked_drainer.is_some()
    }

    /// Removes and returns the parked drainer, if any (to wake on a signal).
    pub fn take_blocked_drainer(&mut self) -> (r: Option<ThreadId>)
        ensures
            r == old(self)@.blocked_drainer,
            final(self)@ == (PortView { blocked_drainer: None, ..old(self)@ }),
    {
        let t: Option<ThreadId> = self.blocked_drainer;
        self.blocked_drainer = None;
        t
    }

    fn find(&self, source: u64, signal: u8) -> (r: Option<usize>)
        requires
            self.wf(),
        ensures
            match r {
                Some(i) => i == self@.slot(source, signal) && i < MAX_BINDINGS,
                None => self@.slot(source, signal) == MAX_BINDINGS,
            },
    {
        let mut i: usize = 0;
        while i < MAX_BINDINGS
            invariant
                self.wf(),
                i <= MAX_BINDINGS,
                forall|j: int| 0 <= j < i ==> !bound(source, signal)(#[trigger] self@.bindings[j]),
            decreases MAX_BINDINGS - i,
        {
            if let Some(b) = self.bindings[i] {
                if b.source == source && b.signal == signal {
                    proof {
                        slots::lemma_first_is(self@.bindings, bound(source, signal), i as int);
                    }
                    return Some(i);
                }
            }
            i += 1;
        }
        proof {
            slots::lemma_first_is(self@.bindings, bound(source, signal), i as int);
        }
        None
    }

    fn next_asserted(&self) -> (r: Option<usize>)
        requires
            self.wf(),
        ensures
            match r {
                Some(i) => i == self@.ready() && i < MAX_BINDINGS,
                None => self@.ready() == MAX_BINDINGS,
            },
    {
        let mut i: usize = 0;
        while i < MAX_BINDINGS
            invariant
                self.wf(),
                i <= MAX_BINDINGS,
                forall|j: int| 0 <= j < i ==> !asserted()(#[trigger] self@.bindings[j]),
            decreases MAX_BINDINGS - i,
        {
            if let Some(b) = self.bindings[i] {
                if b.asserted {
                    proof {
                        slots::lemma_first_is(self@.bindings, asserted(), i as int);
                    }
                    return Some(i);
                }
            }
            i += 1;
        }
        proof {
            slots::lemma_first_is(self@.bindings, asserted(), i as int);
        }
        None
    }
}

impl Default for Port {
    fn default() -> (p: Port)
        ensures
            p.wf(),
            p@ == PortView::fresh(),
    {
        Port::new()
    }
}

/// A fixed pool of ports.
pub struct PortTable {
    ports: Vec<Option<Port>>,
}

/// What a [`PortTable`] holds.
pub type PortsView = Seq<Option<PortView>>;

/// The view of an optional port.
pub open spec fn port_view(p: Option<Port>) -> Option<PortView> {
    match p {
        Some(p) => Some(p@),
        None => None,
    }
}

/// The table has its capacity and every port in it is sound.
pub open spec fn ports_wf(t: PortsView) -> bool {
    &&& t.len() == MAX_PORTS
    &&& forall|i: int| 0 <= i < MAX_PORTS ==> ((#[trigger] t[i]) matches Some(p) ==> p.wf())
}

/// The port `id` names, if there is one.
pub open spec fn port_at(t: PortsView, id: PortId) -> Option<PortView> {
    if id.0 < MAX_PORTS {
        t[id.0 as int]
    } else {
        None
    }
}

/// The predicate of a port known by `object`.
pub open spec fn known_by(object: ObjectId) -> spec_fn(Option<PortView>) -> bool {
    |o: Option<PortView>| o matches Some(p) && p.object == Some(object)
}

/// The predicate of a port a thread is parked on.
pub open spec fn drained_by_someone() -> spec_fn(Option<PortView>) -> bool {
    |o: Option<PortView>| o matches Some(p) && p.blocked_drainer is Some
}

/// The first free port slot, or the capacity.
pub open spec fn port_vacancy(t: PortsView) -> int {
    slots::first(t, slots::free::<PortView>())
}

impl View for PortTable {
    type V = PortsView;

    closed spec fn view(&self) -> PortsView {
        Seq::new(self.ports@.len(), |i: int| port_view(self.ports@[i]))
    }
}

impl PortTable {
    /// The table's invariant.
    pub open spec fn wf(&self) -> bool {
        ports_wf(self@)
    }

    pub fn new() -> (t: PortTable)
        ensures
            t.wf(),
            t@ == slots::empty::<PortView>(MAX_PORTS as nat),
    {
        let t = PortTable { ports: slots::empty_slots(MAX_PORTS) };
        assert(t@ =~= slots::empty::<PortView>(MAX_PORTS as nat));
        t
    }

    /// Allocates a port, returning its id, or [`KError::OutOfMemory`] if full.
    pub fn create(&mut self) -> (r: Result<PortId, KError>)
        requires
            old(self).wf(),
        ensures
            final(self).wf(),
            match r {
                Ok(id) => {
                    &&& id.0 == port_vacancy(old(self)@)
                    &&& id.0 < MAX_PORTS
                    &&& final(self)@ == old(self)@.update(id.0 as int, Some(PortView::fresh()))
                },
                Err(e) => {
                    &&& e == KError::OutOfMemory
                    &&& port_vacancy(old(self)@) == MAX_PORTS
                    &&& final(self)@ == old(self)@
                },
            },
    {
        let mut index: usize = 0;
        while index < MAX_PORTS
            invariant
                self.wf(),
                *self == *old(self),
                index <= MAX_PORTS,
                forall|j: int| 0 <= j < index ==> !slots::free::<PortView>()(#[trigger] self@[j]),
            decreases MAX_PORTS - index,
        {
            assert(self@[index as int] == port_view(self.ports@[index as int]));
            if self.ports[index].is_none() {
                proof {
                    slots::lemma_first_is(self@, slots::free::<PortView>(), index as int);
                }
                self.ports[index] = Some(Port::new());
                assert(self@ =~= old(self)@.update(index as int, Some(PortView::fresh())));
                return Ok(PortId(index));
            }
            index += 1;
        }
        proof {
            slots::lemma_first_is(self@, slots::free::<PortView>(), index as int);
        }
        Err(KError::OutOfMemory)
    }

    /// Allocates a port that is addressed by `id` from the start. An id that a
    /// port is addressed by already is refused as [`KError::AlreadyMapped`].
    pub fn create_with_object(&mut self, id: ObjectId) -> (r: Result<PortId, KError>)
        requires
            old(self).wf(),
        ensures
            final(self).wf(),
            match r {
                Ok(port) => {
                    &&& !slots::any(old(self)@, known_by(id))
                    &&& port.0 == port_vacancy(old(self)@)
                    &&& port.0 < MAX_PORTS
                    &&& final(self)@ == old(self)@.update(
                        port.0 as int,
                        Some(PortView { object: Some(id), ..PortView::fresh() }),
                    )
                },
                Err(e) => {
                    &&& final(self)@ == old(self)@
                    &&& if slots::any(old(self)@, known_by(id)) {
                        e == KError::AlreadyMapped
                    } else {
                        e == KError::OutOfMemory && port_vacancy(old(self)@) == MAX_PORTS
                    }
                },
            },
    {
        proof {
            slots::lemma_first(self@, known_by(id));
        }
        if self.port_of_object(id).is_some() {
            return Err(KError::AlreadyMapped);
        }
        match self.create() {
            Err(e) => Err(e),
            Ok(port) => {
                self.set_port_object(port, id);
                assert(self@ =~= old(self)@.update(
                    port.0 as int,
                    Some(PortView { object: Some(id), ..PortView::fresh() }),
                ));
                Ok(port)
            },
        }
    }

    pub fn port(&self, id: PortId) -> (r: Option<&Port>)
        requires
            self.wf(),
        ensures
            match r {
                Some(p) => p.wf() && port_at(self@, id) == Some(p@),
                None => port_at(self@, id) is None,
            },
    {
        if id.0 >= self.ports.len() {
            return None;
        }
        assert(self@[id.0 as int] == port_view(self.ports@[id.0 as int]));
        self.ports[id.0].as_ref()
    }

    pub fn port_mut(&mut self, id: PortId) -> (r: Option<&mut Port>)
        requires
            old(self).wf(),
        ensures
            match r {
                Some(p) => {
                    &&& id.0 < MAX_PORTS
                    &&& (*p).wf()
                    &&& old(self)@[id.0 as int] == Some((*p)@)
                    &&& final(self)@ == old(self)@.update(id.0 as int, Some((*final(p))@))
                    &&& (*final(p)).wf() ==> final(self).wf()
                },
                None => {
                    &&& port_at(old(self)@, id) is None
                    &&& final(self).wf()
                    &&& final(self)@ == old(self)@
                },
            },
    {
        self.port_mut_at(id.0)
    }

    /// The port at raw index `i`, for the signal fan-out sweep.
    pub fn port_mut_at(&mut self, i: usize) -> (r: Option<&mut Port>)
        requires
            old(self).wf(),
        ensures
            match r {
                Some(p) => {
                    &&& i < MAX_PORTS
                    &&& (*p).wf()
                    &&& old(self)@[i as int] == Some((*p)@)
                    &&& final(self)@ == old(self)@.update(i as int, Some((*final(p))@))
                    &&& (*final(p)).wf() ==> final(self).wf()
                },
                None => {
                    &&& port_at(old(self)@, PortId(i)) is None
                    &&& final(self).wf()
                    &&& final(self)@ == old(self)@
                },
            },
    {
        if i >= self.ports.len() {
            return None;
        }
        assert(self@[i as int] == port_view(self.ports@[i as int]));
        if self.ports[i].is_none() {
            return None;
        }
        match &mut self.ports[i] {
            Some(p) => {
                assert(after_borrow(self)@ =~= old(self)@.update(i as int, Some((*final(p))@)));
                Some(p)
            },
            None => None,
        }
    }

    /// Binds `port` to the object it is addressed by. A port that does not
    /// exist is left alone.
    pub fn set_port_object(&mut self, port: PortId, id: ObjectId)
        requires
            old(self).wf(),
        ensures
            final(self).wf(),
            final(self)@ == match port_at(old(self)@, port) {
                Some(p) => old(self)@.update(
                    port.0 as int,
                    Some(PortView { object: Some(id), ..p }),
                ),
                None => old(self)@,
            },
    {
        if let Some(p) = self.port_mut(port) {
            p.set_object(id);
        }
    }

    /// Resolves an object id back to its bound port.
    pub fn port_of_object(&self, id: ObjectId) -> (r: Option<PortId>)
        requires
            self.wf(),
        ensures
            match r {
                Some(p) => p.0 == slots::first(self@, known_by(id)) && p.0 < MAX_PORTS,
                None => slots::first(self@, known_by(id)) == MAX_PORTS,
            },
    {
        let mut index: usize = 0;
        while index < MAX_PORTS
            invariant
                self.wf(),
                index <= MAX_PORTS,
                forall|j: int| 0 <= j < index ==> !known_by(id)(#[trigger] self@[j]),
            decreases MAX_PORTS - index,
        {
            assert(self@[index as int] == port_view(self.ports@[index as int]));
            if let Some(p) = &self.ports[index] {
                if let Some(o) = p.object() {
                    if o == id {
                        proof {
                            slots::lemma_first_is(self@, known_by(id), index as int);
                        }
                        return Some(PortId(index));
                    }
                }
            }
            index += 1;
        }
        proof {
            slots::lemma_first_is(self@, known_by(id), index as int);
        }
        None
    }

    /// Whether any port has a thread parked on it.
    pub fn any_blocked_drainer(&self) -> (b: bool)
        requires
            self.wf(),
        ensures
            b == slots::any(self@, drained_by_someone()),
    {
        let mut i: usize = 0;
        while i < MAX_PORTS
            invariant
                self.wf(),
                i <= MAX_PORTS,
                forall|j: int| 0 <= j < i ==> !drained_by_someone()(#[trigger] self@[j]),
            decreases MAX_PORTS - i,
        {
            assert(self@[i as int] == port_view(self.ports@[i as int]));
            if let Some(p) = &self.ports[i] {
                if p.has_blocked_drainer() {
                    assert(drained_by_someone()(self@[i as int]));
                    return true;
                }
            }
            i += 1;
        }
        false
    }
}

impl Default for PortTable {
    fn default() -> (t: PortTable)
        ensures
            t.wf(),
            t@ == slots::empty::<PortView>(MAX_PORTS as nat),
    {
        PortTable::new()
    }
}

/// Coalescing hides no edge: while nothing else is asserted, two deliveries
/// and one drain report the sum of the edges (up to the counter's width), and
/// leave nothing behind.
pub proof fn law_coalescing_loses_nothing(
    p: PortView,
    source: u64,
    signal: u8,
    first: u32,
    second: u32,
)
    requires
        p.wf(),
        p.listens(source, signal),
        !p.has_event(),
    ensures
        ({
            let q = p.delivered(source, signal, first).delivered(source, signal, second);
            &&& q.has_event()
            &&& q.event() == (PortEvent { source, signal, pending: saturating(first, second) })
            &&& !q.drained().has_event()
        }),
{
    let i = p.slot(source, signal);
    slots::lemma_first(p.bindings, bound(source, signal));
    slots::lemma_first(p.bindings, asserted());
    assert forall|j: int| 0 <= j < p.bindings.len() implies !asserted()(#[trigger] p.bindings[j])
        && (p.bindings[j] matches Some(b) ==> b.pending == 0) by {}
    let q1 = p.delivered(source, signal, first);
    assert(!asserted()(p.bindings[i]));
    slots::lemma_first_is(q1.bindings, bound(source, signal), i);
    let q = q1.delivered(source, signal, second);
    slots::lemma_first_is(q.bindings, asserted(), i);
    slots::lemma_first_is(q.drained().bindings, asserted(), q.bindings.len() as int);
}

/// A delivery adds its edges to the binding it is for, as far as the counter
/// goes, and asserts it; every other binding, whoever waits and the port's object
/// stay. Edges that meet pending ones are counted as coalesced. Where nothing is
/// bound, nothing changes.
pub proof fn law_a_delivery_adds_to_its_binding(
    p: PortView,
    source: u64,
    signal: u8,
    edges: u32,
    k: int,
)
    requires
        p.wf(),
        0 <= k < MAX_BINDINGS,
    ensures
        ({
            let q = p.delivered(source, signal, edges);
            &&& q.bindings.len() == MAX_BINDINGS
            &&& q.blocked_drainer == p.blocked_drainer && q.object == p.object
            &&& match p.bindings[k] {
                Some(b) => if b.source == source && b.signal == signal {
                    &&& q.bindings[k] matches Some(c)
                    &&& c.source == source && c.signal == signal && c.asserted
                    &&& b.pending + edges <= u32::MAX ==> c.pending == b.pending + edges
                    &&& b.pending + edges > u32::MAX ==> c.pending == u32::MAX
                    &&& p.coalesced < u64::MAX ==> q.coalesced == p.coalesced + (if b.pending
                        > 0 {
                        1int
                    } else {
                        0
                    })
                    &&& p.listens(source, signal)
                } else {
                    q.bindings[k] == p.bindings[k]
                },
                None => q.bindings[k] is None,
            }
        }),
        !p.listens(source, signal) ==> p.delivered(source, signal, edges) == p,
        p.listens(source, signal) <==> exists|i: int|
            0 <= i < MAX_BINDINGS && (#[trigger] p.bindings[i] matches Some(b) && b.source == source
                && b.signal == signal),
{
    let f = bound(source, signal);
    slots::lemma_first(p.bindings, f);
    let at = p.slot(source, signal);
    if at < p.bindings.len() {
        assert(f(p.bindings[at]));
        assert(p.bindings[at] is Some);
    }
    if f(p.bindings[k]) && at != k {
        if at < k {
            assert(p.bindings[at] is Some && p.bindings[k] is Some);
        }
    }
    if exists|i: int|
        0 <= i < MAX_BINDINGS && (#[trigger] p.bindings[i] matches Some(b) && b.source == source
            && b.signal == signal) {
        let i = choose|i: int|
            0 <= i < MAX_BINDINGS && (#[trigger] p.bindings[i] matches Some(b) && b.source == source
                && b.signal == signal);
        assert(f(p.bindings[i]));
    }
}

/// A drain reports the first binding that is asserted, with all its edges, and
/// clears that one only. There is nothing to report exactly when none is
/// asserted.
pub proof fn law_a_drain_reports_and_clears_one(p: PortView, k: int)
    requires
        p.wf(),
        0 <= k < MAX_BINDINGS,
    ensures
        p.has_event() <==> exists|i: int|
            0 <= i < MAX_BINDINGS && (#[trigger] p.bindings[i] matches Some(b) && b.asserted),
        p.has_event() ==> exists|i: int|
            {
                &&& 0 <= i < MAX_BINDINGS
                &&& #[trigger] p.bindings[i] matches Some(b)
                &&& b.asserted
                &&& forall|j: int|
                    0 <= j < i ==> (#[trigger] p.bindings[j] matches Some(c) ==> !c.asserted)
                &&& p.event().source == b.source
                &&& p.event().signal == b.signal
                &&& p.event().pending == b.pending
                &&& p.drained().bindings[i] matches Some(d) && d.source == b.source && d.signal
                    == b.signal && d.pending == 0 && !d.asserted
                &&& k != i ==> p.drained().bindings[k] == p.bindings[k]
            },
        p.drained().coalesced == p.coalesced,
        p.drained().object == p.object,
        p.drained().blocked_drainer == p.blocked_drainer,
{
    slots::lemma_first(p.bindings, asserted());
    let i = p.ready();
    if i < p.bindings.len() {
        assert(asserted()(p.bindings[i]));
        assert(p.bindings[i] is Some);
        assert forall|j: int| 0 <= j < i implies (#[trigger] p.bindings[j] matches Some(c)
            ==> !c.asserted) by {
            assert(!asserted()(p.bindings[j]));
        }
    }
    if exists|i: int| 0 <= i < MAX_BINDINGS && (#[trigger] p.bindings[i] matches Some(b) && b.asserted) {
        let j = choose|i: int|
            0 <= i < MAX_BINDINGS && (#[trigger] p.bindings[i] matches Some(b) && b.asserted);
        assert(asserted()(p.bindings[j]));
    }
}

/// A new binding is quiet and takes a free place; taking one away frees the
/// place of that one. Every other binding stays.
pub proof fn law_binding_and_unbinding_are_local(p: PortView, source: u64, signal: u8)
    requires
        p.wf(),
    ensures
        p.vacancy() < MAX_BINDINGS ==> {
            let q = p.with_binding(source, signal);
            &&& exists|i: int|
                {
                    &&& 0 <= i < MAX_BINDINGS
                    &&& p.bindings[i] is None
                    &&& #[trigger] q.bindings[i] matches Some(b)
                    &&& b.source == source && b.signal == signal && b.pending == 0 && !b.asserted
                    &&& forall|k: int|
                        0 <= k < MAX_BINDINGS && k != i ==> #[trigger] q.bindings[k]
                            == p.bindings[k]
                }
            &&& q.coalesced == p.coalesced && q.object == p.object
            &&& q.blocked_drainer == p.blocked_drainer
        },
        p.vacancy() == MAX_BINDINGS ==> forall|k: int|
            0 <= k < MAX_BINDINGS ==> #[trigger] p.bindings[k] is Some,
        forall|k: int|
            0 <= k < MAX_BINDINGS ==> #[trigger] p.without_binding(source, signal).bindings[k] == (
            if p.bindings[k] matches Some(b) && b.source == source && b.signal == signal {
                None
            } else {
                p.bindings[k]
            }),
        p.without_binding(source, signal).coalesced == p.coalesced,
        p.without_binding(source, signal).object == p.object,
        p.without_binding(source, signal).blocked_drainer == p.blocked_drainer,
{
    let free = slots::free::<Binding>();
    let f = bound(source, signal);
    slots::lemma_first(p.bindings, free);
    slots::lemma_first(p.bindings, f);
    let i = p.vacancy();
    let at = p.slot(source, signal);
    if i < MAX_BINDINGS {
        assert(free(p.bindings[i]));
        assert(p.with_binding(source, signal).bindings[i] is Some);
    } else {
        assert forall|k: int| 0 <= k < MAX_BINDINGS implies #[trigger] p.bindings[k] is Some by {
            assert(!free(p.bindings[k]));
        }
    }
    assert forall|k: int|
        0 <= k < MAX_BINDINGS implies #[trigger] p.without_binding(source, signal).bindings[k] == (
    if p.bindings[k] matches Some(b) && b.source == source && b.signal == signal {
        None
    } else {
        p.bindings[k]
    }) by {
        if f(p.bindings[k]) && at != k {
            if at < k {
                assert(p.bindings[at] is Some && p.bindings[k] is Some);
            }
        }
    }
}

/// A port id is a place in the table, and a new port is quiet, unbound and has
/// nobody waiting.
pub proof fn law_a_port_is_a_place_in_the_table(t: PortsView, id: PortId, k: int)
    requires
        ports_wf(t),
    ensures
        id.0 < MAX_PORTS ==> port_at(t, id) == t[id.0 as int],
        id.0 >= MAX_PORTS ==> port_at(t, id) is None,
        0 <= port_vacancy(t) <= MAX_PORTS,
        port_vacancy(t) < MAX_PORTS ==> t[port_vacancy(t)] is None,
        port_vacancy(t) == MAX_PORTS && 0 <= k < MAX_PORTS ==> t[k] is Some,
        ({
            let p = PortView::fresh();
            &&& p.wf()
            &&& p.coalesced == 0 && p.blocked_drainer is None && p.object is None
            &&& 0 <= k < MAX_BINDINGS ==> p.bindings[k] is None
        }),
{
    let free = slots::free::<PortView>();
    slots::lemma_first(t, free);
    if port_vacancy(t) == MAX_PORTS && 0 <= k < MAX_PORTS {
        assert(!free(t[k]));
    }
}

} // verus!
