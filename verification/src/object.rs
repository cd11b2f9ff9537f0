//! Kernel objects and their lifetime. Every object a handle can reference is a
//! typed, reference-counted entry in the object table; the object is destroyed
//! when its last reference drops. Handles hold references, so closing the last
//! handle to an object destroys it.
//!
//! [`ObjectId`] packs a table index and a generation, so a stale id (one whose
//! slot has since been reused) is detected rather than silently aliased.
use vstd::prelude::*;
use crate::error::KError;
use crate::slots;

verus! {

/// Maximum live kernel objects.
pub const MAX_OBJECTS: usize = 256;

/// The class of a kernel object.
#[derive(Clone, Copy, PartialEq, Eq, Debug, Structural)]
pub enum ObjectType {
    Process,
    Thread,
    AddressSpace,
    Job,
    Channel,
    Port,
    /// A range of backable pages; a service-backed one names a pager that
    /// supplies its pages on demand.
    Memory,
    /// A device-I/O capability: possession authorizes a driver host to access
    /// a device's registers.
    Device,
    /// A generic object used to exercise the handle machinery before the
    /// richer object classes exist.
    Test,
}

/// A reference to a kernel object: table index in the low 16 bits, generation
/// in the high 16 bits. The generation makes a reused slot's old id stale.
#[derive(Clone, Copy, PartialEq, Eq, Hash, Debug, Structural)]
pub struct ObjectId(pub u32);

impl ObjectId {
    /// The table index this id names.
    pub open spec fn index_of(self) -> int {
        slots::packed_index(self.0)
    }

    /// The generation this id was issued under.
    pub open spec fn generation_of(self) -> int {
        slots::packed_generation(self.0)
    }

    fn new(index: usize, generation: u16) -> (id: ObjectId)
        requires
            index < 0x1_0000,
        ensures
            id == ObjectId(slots::packed(index as int, generation)),
    {
        ObjectId(slots::pack(index, generation))
    }

    fn index(self) -> (index: usize)
        ensures
            index == self.index_of(),
    {
        slots::unpack_index(self.0)
    }

    fn generation(self) -> (generation: u16)
        ensures
            generation == self.generation_of(),
    {
        slots::unpack_generation(self.0)
    }

    /// The raw packed value (for accounting and tracing).
    pub fn raw(self) -> (raw: u32)
        ensures
            raw == self.0,
    {
        self.0
    }

    /// Reconstructs an id from its raw packed value: how the IPC transport
    /// carries a conserved object reference through a message.
    pub fn from_raw(raw: u32) -> (id: ObjectId)
        ensures
            id == ObjectId(raw),
    {
        ObjectId(raw)
    }
}

/// A live object: its class and how many references name it.
#[derive(Clone, Copy, PartialEq, Eq, Debug, Structural)]
pub struct ObjectEntry {
    pub object_type: ObjectType,
    pub refcount: usize,
}

/// A fixed-capacity pool of live kernel objects.
pub struct ObjectTable {
    slots: Vec<Option<ObjectEntry>>,
    /// Per-slot generation, bumped each time a slot is freed, so ids into a
    /// reused slot are distinguishable from the previous occupant's.
    generations: Vec<u16>,
}

/// What an [`ObjectTable`] holds.
#[verifier::ext_equal]
pub struct ObjectTableView {
    pub slots: Seq<Option<ObjectEntry>>,
    pub generations: Seq<u16>,
}

/// The generation that follows `g`.
pub open spec fn next_generation(g: u16) -> u16 {
    if g == u16::MAX {
        0
    } else {
        (g + 1) as u16
    }
}

impl ObjectTableView {
    /// The table with nothing in it.
    pub open spec fn empty() -> ObjectTableView {
        ObjectTableView {
            slots: slots::empty(MAX_OBJECTS as nat),
            generations: Seq::new(MAX_OBJECTS as nat, |i: int| 0u16),
        }
    }

    /// Both columns have the table's capacity, and a live object has at least
    /// one reference.
    pub open spec fn wf(self) -> bool {
        &&& self.slots.len() == MAX_OBJECTS
        &&& self.generations.len() == MAX_OBJECTS
        &&& forall|i: int|
            0 <= i < MAX_OBJECTS ==> ((#[trigger] self.slots[i]) matches Some(e) ==> e.refcount
                >= 1)
    }

    /// The object `id` names, if it is live and the id is not stale.
    pub open spec fn find(self, id: ObjectId) -> Option<ObjectEntry> {
        if id.index_of() < MAX_OBJECTS && self.generations[id.index_of()] == id.generation_of() {
            self.slots[id.index_of()]
        } else {
            None
        }
    }

    /// The first free slot, or the capacity.
    pub open spec fn vacancy(self) -> int {
        slots::first(self.slots, slots::free::<ObjectEntry>())
    }

    /// The id the next object gets.
    pub open spec fn next_id(self) -> ObjectId {
        ObjectId(slots::packed(self.vacancy(), self.generations[self.vacancy()]))
    }

    /// The table after an object is made in the first free slot.
    pub open spec fn created(self, object_type: ObjectType) -> ObjectTableView {
        ObjectTableView {
            slots: self.slots.update(
                self.vacancy(),
                Some(ObjectEntry { object_type, refcount: 1 }),
            ),
            ..self
        }
    }

    /// The table after `id`, which is live, gains a reference.
    pub open spec fn retained(self, id: ObjectId) -> ObjectTableView {
        let e = self.slots[id.index_of()]->0;
        ObjectTableView {
            slots: self.slots.update(
                id.index_of(),
                Some(ObjectEntry { refcount: (e.refcount + 1) as usize, ..e }),
            ),
            ..self
        }
    }

    /// The table after `id`, which is live, loses a reference: with the last
    /// one the slot is freed and its generation moves on.
    pub open spec fn released(self, id: ObjectId) -> ObjectTableView {
        let i = id.index_of();
        let e = self.slots[i]->0;
        if e.refcount == 1 {
            ObjectTableView {
                slots: self.slots.update(i, None),
                generations: self.generations.update(i, next_generation(self.generations[i])),
            }
        } else {
            ObjectTableView {
                slots: self.slots.update(
                    i,
                    Some(ObjectEntry { refcount: (e.refcount - 1) as usize, ..e }),
                ),
                ..self
            }
        }
    }
}

impl View for ObjectTable {
    type V = ObjectTableView;

    closed spec fn view(&self) -> ObjectTableView {
        ObjectTableView { slots: self.slots@, generations: self.generations@ }
    }
}

impl ObjectTable {
    /// The table's invariant.
    pub open spec fn wf(&self) -> bool {
        self@.wf()
    }

    pub fn new() -> (t: ObjectTable)
        ensures
            t.wf(),
            t@ == ObjectTableView::empty(),
    {
        let t = ObjectTable {
            slots: slots::empty_slots(MAX_OBJECTS),
            generations: vec![0u16; MAX_OBJECTS],
        };
        assert(t@ =~= ObjectTableView::empty());
        t
    }

    /// Creates an object of `object_type` with one reference, returning its id,
    /// or [`KError::OutOfMemory`] if the pool is full.
    pub fn create(&mut self, object_type: ObjectType) -> (r: Result<ObjectId, KError>)
        requires
            old(self).wf(),
        ensures
            final(self).wf(),
            match r {
                Ok(id) => {
                    &&& old(self)@.vacancy() < MAX_OBJECTS
                    &&& id == old(self)@.next_id()
                    &&& final(self)@ == old(self)@.created(object_type)
                    &&& old(self)@.find(id) is None
                    &&& final(self)@.find(id) == Some(ObjectEntry { object_type, refcount: 1 })
                },
                Err(e) => {
                    &&& e == KError::OutOfMemory
                    &&& old(self)@.vacancy() == MAX_OBJECTS
                    &&& final(self)@ == old(self)@
                },
            },
    {
        match slots::find_free(&self.slots) {
            None => Err(KError::OutOfMemory),
            Some(index) => {
                self.slots[index] = Some(ObjectEntry { object_type, refcount: 1 });
                proof {
                    slots::lemma_packed(index as int, self.generations@[index as int]);
                }
                Ok(ObjectId::new(index, self.generations[index]))
            },
        }
    }

    /// Adds a reference. `BadHandle` if the id is stale or absent.
    pub fn retain(&mut self, id: ObjectId) -> (r: Result<(), KError>)
        requires
            old(self).wf(),
            old(self)@.find(id) matches Some(e) ==> e.refcount < usize::MAX,
        ensures
            final(self).wf(),
            match r {
                Ok(_) => old(self)@.find(id) is Some && final(self)@ == old(self)@.retained(id),
                Err(e) => {
                    &&& e == KError::BadHandle
                    &&& old(self)@.find(id) is None
                    &&& final(self)@ == old(self)@
                },
            },
    {
        let index: usize = id.index();
        match self.entry(id) {
            None => Err(KError::BadHandle),
            Some(e) => {
                self.slots[index] = Some(
                    ObjectEntry { object_type: e.object_type, refcount: e.refcount + 1 },
                );
                Ok(())
            },
        }
    }

    /// Drops a reference, destroying the object (and freeing its slot) when the
    /// count reaches zero. Returns whether the object was destroyed. `BadHandle`
    /// if the id is stale or absent.
    pub fn release(&mut self, id: ObjectId) -> (r: Result<bool, KError>)
        requires
            old(self).wf(),
        ensures
            final(self).wf(),
            match r {
                Ok(destroyed) => {
                    &&& old(self)@.find(id) is Some
                    &&& final(self)@ == old(self)@.released(id)
                    &&& destroyed == (old(self)@.find(id)->0.refcount == 1)
                    &&& destroyed == (final(self)@.find(id) is None)
                },
                Err(e) => {
                    &&& e == KError::BadHandle
                    &&& old(self)@.find(id) is None
                    &&& final(self)@ == old(self)@
                },
            },
    {
        let index: usize = id.index();
        match self.entry(id) {
            None => Err(KError::BadHandle),
            Some(e) => {
                if e.refcount == 1 {
                    self.slots[index] = None;
                    let g: u16 = self.generations[index];
                    self.generations[index] = g.wrapping_add(1);
                    Ok(true)
                } else {
                    self.slots[index] = Some(
                        ObjectEntry { object_type: e.object_type, refcount: e.refcount - 1 },
                    );
                    Ok(false)
                }
            },
        }
    }

    /// The object's type, or `None` if the id is stale or absent.
    pub fn object_type(&self, id: ObjectId) -> (r: Option<ObjectType>)
        requires
            self.wf(),
        ensures
            r == match self@.find(id) {
                Some(e) => Some(e.object_type),
                None => None,
            },
    {
        match self.entry(id) {
            Some(e) => Some(e.object_type),
            None => None,
        }
    }

    /// The object's current reference count, or `None` if stale or absent.
    pub fn refcount(&self, id: ObjectId) -> (r: Option<usize>)
        requires
            self.wf(),
        ensures
            r == match self@.find(id) {
                Some(e) => Some(e.refcount),
                None => None,
            },
    {
        match self.entry(id) {
            Some(e) => Some(e.refcount),
            None => None,
        }
    }

    /// Whether the id currently refers to a live object.
    pub fn is_live(&self, id: ObjectId) -> (b: bool)
        requires
            self.wf(),
        ensures
            b == (self@.find(id) is Some),
    {
        self.entry(id).is_some()
    }

    /// Number of live objects.
    pub fn live_count(&self) -> (n: usize)
        requires
            self.wf(),
        ensures
            n == slots::count(self@.slots, slots::used::<ObjectEntry>()),
    {
        slots::count_used(&self.slots)
    }

    fn entry(&self, id: ObjectId) -> (r: Option<ObjectEntry>)
        requires
            self.wf(),
        ensures
            r == self@.find(id),
            r is Some ==> id.index_of() < MAX_OBJECTS && r == self@.slots[id.index_of()],
    {
        let index: usize = id.index();
        if index < MAX_OBJECTS && self.generations[index] == id.generation() {
            self.slots[index]
        } else {
            None
        }
    }
}

impl Default for ObjectTable {
    fn default() -> (t: ObjectTable)
        ensures
            t.wf(),
            t@ == ObjectTableView::empty(),
    {
        ObjectTable::new()
    }
}

/// A reference is worth exactly one release: retaining and then releasing a
/// live object leaves the table as it was.
pub proof fn law_retain_release_cancel(t: ObjectTableView, id: ObjectId)
    requires
        t.wf(),
        t.find(id) is Some,
        t.find(id)->0.refcount < usize::MAX,
    ensures
        t.retained(id).released(id) == t,
{
    assert(t.retained(id).released(id) =~= t);
}

/// A destroyed object's id stays dead when its slot is reused: the next
/// occupant of the same slot is issued a different id, and the old one still
/// finds nothing.
pub proof fn law_reuse_does_not_alias(t: ObjectTableView, id: ObjectId, next: ObjectType)
    requires
        t.wf(),
        t.find(id) is Some,
        t.find(id)->0.refcount == 1,
        t.released(id).vacancy() == id.index_of(),
    ensures
        t.released(id).next_id() != id,
        t.released(id).created(next).find(id) is None,
        t.released(id).created(next).find(t.released(id).next_id()) is Some,
{
    let i = id.index_of();
    slots::lemma_packed(i, next_generation(t.generations[i]));
}

/// Operations on one object leave every other object alone.
pub proof fn law_objects_are_independent(t: ObjectTableView, id: ObjectId, other: ObjectId)
    requires
        t.wf(),
        t.find(id) is Some,
        t.find(other) is Some,
        id != other,
    ensures
        t.retained(id).find(other) == t.find(other),
        t.released(id).find(other) == t.find(other),
{
    if id.index_of() == other.index_of() {
        assert(id.generation_of() == other.generation_of());
        assert(id.0 == id.generation_of() * 0x1_0000 + id.index_of());
        assert(other.0 == other.generation_of() * 0x1_0000 + other.index_of());
    }
}

/// A new object has the type it was made with and one reference, under an id
/// that named nothing before; every id that named something still does.
pub proof fn law_a_new_object_has_one_reference(
    t: ObjectTableView,
    object_type: ObjectType,
    other: ObjectId,
)
    requires
        t.wf(),
        t.vacancy() < MAX_OBJECTS,
        other != t.next_id(),
    ensures
        t.find(t.next_id()) is None,
        t.created(object_type).find(t.next_id()) matches Some(e) && e.refcount == 1
            && e.object_type == object_type,
        t.created(object_type).find(other) == t.find(other),
{
    slots::lemma_first(t.slots, slots::free::<ObjectEntry>());
    let i = t.vacancy();
    slots::lemma_packed(i, t.generations[i]);
    let new = t.next_id();
    assert(other.0 == other.generation_of() * 0x1_0000 + other.index_of());
    assert(new.0 == new.generation_of() * 0x1_0000 + new.index_of());
}

/// A reference more, a reference less: the type stays, and the object is gone
/// with its last reference and not before.
pub proof fn law_references_are_counted_one_by_one(t: ObjectTableView, id: ObjectId)
    requires
        t.wf(),
        t.find(id) is Some,
    ensures
        t.find(id)->0.refcount < usize::MAX ==> (t.retained(id).find(id) matches Some(e)
            && e.refcount == t.find(id)->0.refcount + 1 && e.object_type
            == t.find(id)->0.object_type),
        t.find(id)->0.refcount == 1 ==> t.released(id).find(id) is None,
        t.find(id)->0.refcount > 1 ==> (t.released(id).find(id) matches Some(e) && e.refcount
            == t.find(id)->0.refcount - 1 && e.object_type == t.find(id)->0.object_type),
{
}

/// An object table has room exactly while a slot is free, and what an id finds
/// is in the slot it gives, while its generation is that slot's.
pub proof fn law_an_id_is_a_slot_and_a_generation(t: ObjectTableView, id: ObjectId)
    requires
        t.wf(),
    ensures
        t.vacancy() == MAX_OBJECTS <==> forall|k: int|
            0 <= k < MAX_OBJECTS ==> #[trigger] t.slots[k] is Some,
        t.find(id) matches Some(e) ==> id.0 % 0x1_0000 < MAX_OBJECTS && t.slots[id.0 as int
            % 0x1_0000] == Some(e) && t.generations[id.0 as int % 0x1_0000] as int == id.0 as int
            / 0x1_0000,
        id.0 % 0x1_0000 < MAX_OBJECTS && t.generations[id.0 as int % 0x1_0000] as int == id.0 as int
            / 0x1_0000 ==> t.find(id) == t.slots[id.0 as int % 0x1_0000],
{
    let free = slots::free::<ObjectEntry>();
    slots::lemma_first(t.slots, free);
    if t.vacancy() == MAX_OBJECTS {
        assert forall|k: int| 0 <= k < MAX_OBJECTS implies #[trigger] t.slots[k] is Some by {
            assert(!free(t.slots[k]));
        }
    } else {
        assert(free(t.slots[t.vacancy()]));
    }
}

/// A freed slot's next id differs from the last one, and an empty table finds
/// nothing.
pub proof fn law_generations_move_on(g: u16, id: ObjectId)
    ensures
        next_generation(g) != g,
        g < u16::MAX ==> next_generation(g) == g + 1,
        g == u16::MAX ==> next_generation(g) == 0,
        ObjectTableView::empty().find(id) is None,
{
}

} // verus!
