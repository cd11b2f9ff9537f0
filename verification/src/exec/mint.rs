//! Object ids the kernel mints for channels and ports, where nobody outside may
//! choose one.
use vstd::prelude::*;
use crate::exec::{ExecView, Executive, MachineView};
use crate::ipc::endpoint_known_by;
use crate::object::ObjectId;
use crate::port::known_by;
use crate::slots;

verus! {

/// Where minted ids start: above what is created in an object table or numbered
/// by hand.
pub const MINTED_OBJECT_ID_BASE: u32 = 0x8000_0000;

impl MachineView {
    /// Whether an endpoint or a port is known by `id`.
    pub open spec fn bound(self, id: ObjectId) -> bool {
        endpoint_known_by(self.channels, id) is Some || slots::any(self.ports, known_by(id))
    }

    /// The first id from `from` on that nothing is known by, or the largest there
    /// is, which is never minted.
    pub open spec fn unbound_from(self, from: u32) -> u32
        decreases u32::MAX - from,
    {
        if from == u32::MAX || !self.bound(ObjectId(from)) {
            from
        } else {
            self.unbound_from((from + 1) as u32)
        }
    }

    /// The id minted next.
    pub open spec fn next_minted(self) -> u32 {
        self.unbound_from(self.minted)
    }

    /// The one after that.
    pub open spec fn then_minted(self) -> u32 {
        if self.next_minted() == u32::MAX {
            u32::MAX
        } else {
            self.unbound_from((self.next_minted() + 1) as u32)
        }
    }
}

impl ExecView {
    /// With every id up to `last` minted.
    pub open spec fn with_minted(self, last: u32) -> ExecView {
        ExecView { machine: MachineView { minted: (last + 1) as u32, ..self.machine }, ..self }
    }
}

impl Executive {
    /// The first id from `from` on that nothing is known by.
    pub(crate) fn unbound_id(&self, from: u32) -> (id: u32)
        requires
            self.wf(),
        ensures
            id == self@.machine.unbound_from(from),
    {
        let mut id: u32 = from;
        while id < u32::MAX && self.is_bound(ObjectId(id))
            invariant
                self.wf(),
                self@.machine.unbound_from(id) == self@.machine.unbound_from(from),
            decreases u32::MAX - id,
        {
            id += 1;
        }
        id
    }

    fn is_bound(&self, id: ObjectId) -> (b: bool)
        requires
            self.wf(),
        ensures
            b == self@.machine.bound(id),
    {
        proof {
            slots::lemma_first(self@.machine.ports, known_by(id));
        }
        self.machine.channels.endpoint_of_object(id).is_some()
            || self.machine.ports.port_of_object(id).is_some()
    }

    pub(crate) fn set_minted(&mut self, last: u32)
        requires
            old(self).wf(),
            last < u32::MAX,
        ensures
            final(self).wf(),
            final(self)@ == old(self)@.with_minted(last),
    {
        self.machine.minted = last + 1;
        assert(self@ =~= old(self)@.with_minted(last));
    }
}

/// A minted id is fresh: nothing was known by it, and no id is minted twice.
pub proof fn law_minted_ids_are_fresh(m: MachineView)
    requires
        m.then_minted() != u32::MAX,
    ensures
        m.minted <= m.next_minted() < m.then_minted(),
        !m.bound(ObjectId(m.next_minted())),
        !m.bound(ObjectId(m.then_minted())),
{
    lemma_unbound(m, m.minted);
    lemma_unbound(m, (m.next_minted() + 1) as u32);
}

/// The first id found is not before the start, and nothing is known by it.
pub(crate) proof fn lemma_unbound(m: MachineView, from: u32)
    ensures
        from <= m.unbound_from(from),
        m.unbound_from(from) != u32::MAX ==> !m.bound(ObjectId(m.unbound_from(from))),
    decreases u32::MAX - from,
{
    if from != u32::MAX && m.bound(ObjectId(from)) {
        lemma_unbound(m, (from + 1) as u32);
    }
}

/// The next id to mint is the lowest that nothing is known by: every one passed
/// over is some endpoint's or some port's.
pub proof fn law_the_lowest_unbound_id_is_minted(m: MachineView, from: u32, id: u32, k: int)
    requires
        from <= id < m.unbound_from(from),
    ensures
        m.bound(ObjectId(id)),
        0 <= k < m.ports.len() && (m.ports[k] matches Some(p) && p.object == Some(ObjectId(id)))
            ==> m.bound(ObjectId(id)),
        m.bound(ObjectId(id)) <==> endpoint_known_by(m.channels, ObjectId(id)) is Some || exists|
            j: int,
        |
            0 <= j < m.ports.len() && (#[trigger] m.ports[j] matches Some(p) && p.object == Some(
                ObjectId(id),
            )),
    decreases u32::MAX - from,
{
    if from < id {
        if from != u32::MAX && m.bound(ObjectId(from)) {
            law_the_lowest_unbound_id_is_minted(m, (from + 1) as u32, id, k);
        }
    }
    let f = known_by(ObjectId(id));
    if slots::any(m.ports, f) {
        let j = choose|j: int| 0 <= j < m.ports.len() && f(#[trigger] m.ports[j]);
        assert(m.ports[j] matches Some(p) && p.object == Some(ObjectId(id)));
    }
    if exists|j: int|
        0 <= j < m.ports.len() && (#[trigger] m.ports[j] matches Some(p) && p.object == Some(
            ObjectId(id),
        )) {
        let j = choose|j: int|
            0 <= j < m.ports.len() && (#[trigger] m.ports[j] matches Some(p) && p.object == Some(
                ObjectId(id),
            ));
        assert(f(m.ports[j]));
    }
}

} // verus!
