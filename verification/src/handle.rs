//! The per-process handle table: the capability surface. A handle is a dense
//! id into this table; each entry binds an object reference to a rights mask.
//! Every operation enforces the one invariant, that rights only narrow.
//!
//! Lookup and the rights query are reads that write no state. Handles are
//! dense (index in the low 16 bits, generation in the high 16) so a stale
//! handle is caught, not aliased. Each entry reserves a `scope` for
//! revocation, which stays `None` until scopes land.
use vstd::prelude::*;
use vstd::multiset::Multiset;
use crate::error::KError;
use crate::object::{
    next_generation, ObjectEntry, ObjectId, ObjectTable, ObjectTableView, ObjectType, MAX_OBJECTS,
};
use crate::rights::{subset, Rights};
use crate::slots;

verus! {

/// Maximum handles per process.
pub const MAX_HANDLES: usize = 1024;

/// A handle: a reference to a rights-bearing object reference. Index in the low
/// 16 bits, generation in the high 16.
#[derive(Clone, Copy, PartialEq, Eq, Hash, Debug, Structural)]
pub struct Handle(pub u32);

impl Handle {
    /// The table index this handle names.
    pub open spec fn index_of(self) -> int {
        slots::packed_index(self.0)
    }

    /// The generation this handle was issued under.
    pub open spec fn generation_of(self) -> int {
        slots::packed_generation(self.0)
    }

    fn new(index: usize, generation: u16) -> (h: Handle)
        requires
            index < 0x1_0000,
        ensures
            h == Handle(slots::packed(index as int, generation)),
    {
        Handle(slots::pack(index, generation))
    }

    fn index(self) -> (index: usize)
        ensures
            index == self.index_of(),
    {
        slots::unpack_index(self.0)
    }

    fn generation(self) -> (generation: u16)
        ensures
            generation == self.generation_of(),
    {
        slots::unpack_generation(self.0)
    }

    /// The raw packed value (for tracing and accounting).
    pub fn raw(self) -> (raw: u32)
        ensures
            raw == self.0,
    {
        self.0
    }

    /// Rebuilds a handle from its raw packed value: the form a user program
    /// passes across the syscall boundary. A stale or out-of-range value fails
    /// the generation and bounds check in [`HandleTable::lookup`], so this
    /// never bypasses validation.
    pub fn from_raw(raw: u32) -> (h: Handle)
        ensures
            h == Handle(raw),
    {
        Handle(raw)
    }
}

/// A reference to a revocation scope. Unscoped handles carry `None`.
#[derive(Clone, Copy, PartialEq, Eq, Debug, Structural)]
pub struct ScopeRef(pub u32);

/// What a handle binds together.
#[derive(Clone, Copy, PartialEq, Eq, Debug, Structural)]
pub struct HandleEntry {
    pub object: ObjectId,
    pub rights: Rights,
    /// Reserved: the revocation scope this handle belongs to, if any.
    pub scope: Option<ScopeRef>,
}

/// A process's handle table.
pub struct HandleTable {
    slots: Vec<Option<HandleEntry>>,
    generations: Vec<u16>,
}

/// What a [`HandleTable`] holds.
#[verifier::ext_equal]
pub struct HandleTableView {
    pub slots: Seq<Option<HandleEntry>>,
    pub generations: Seq<u16>,
}

/// The predicate of a slot that names `object`.
pub open spec fn naming(object: ObjectId) -> spec_fn(Option<HandleEntry>) -> bool {
    |o: Option<HandleEntry>| o matches Some(e) && e.object == object
}

impl HandleTableView {
    /// The table with nothing in it.
    pub open spec fn empty() -> HandleTableView {
        HandleTableView {
            slots: slots::empty(MAX_HANDLES as nat),
            generations: Seq::new(MAX_HANDLES as nat, |i: int| 0u16),
        }
    }

    /// Both columns have the table's capacity.
    pub open spec fn wf(self) -> bool {
        &&& self.slots.len() == MAX_HANDLES
        &&& self.generations.len() == MAX_HANDLES
    }

    /// What `handle` names, unless it is stale or absent.
    pub open spec fn find(self, handle: Handle) -> Option<HandleEntry> {
        if handle.index_of() < MAX_HANDLES && self.generations[handle.index_of()]
            == handle.generation_of() {
            self.slots[handle.index_of()]
        } else {
            None
        }
    }

    /// The first free slot, or the capacity.
    pub open spec fn vacancy(self) -> int {
        slots::first(self.slots, slots::free::<HandleEntry>())
    }

    /// Whether every slot is taken.
    pub open spec fn full(self) -> bool {
        self.vacancy() == MAX_HANDLES
    }

    /// The handle the next insertion issues.
    pub open spec fn next_handle(self) -> Handle {
        Handle(slots::packed(self.vacancy(), self.generations[self.vacancy()]))
    }

    /// The table after a handle to `object` is put in the first free slot.
    pub open spec fn inserted(self, object: ObjectId, rights: Rights) -> HandleTableView {
        HandleTableView {
            slots: self.slots.update(
                self.vacancy(),
                Some(HandleEntry { object, rights, scope: None }),
            ),
            ..self
        }
    }

    /// The table after the slot at `index` is emptied.
    pub open spec fn cleared(self, index: int) -> HandleTableView {
        HandleTableView {
            slots: self.slots.update(index, None),
            generations: self.generations.update(
                index,
                next_generation(self.generations[index]),
            ),
        }
    }

    /// The table after a live handle is given `rights`.
    pub open spec fn reduced(self, handle: Handle, rights: Rights) -> HandleTableView {
        let e = self.slots[handle.index_of()]->0;
        HandleTableView {
            slots: self.slots.update(handle.index_of(), Some(HandleEntry { rights, ..e })),
            ..self
        }
    }

    /// How many handles name `object`.
    pub open spec fn references(self, object: ObjectId) -> nat {
        slots::count(self.slots, naming(object))
    }

    /// Whether some handle names `object`.
    pub open spec fn holds(self, object: ObjectId) -> bool {
        slots::any(self.slots, naming(object))
    }
}

/// Why a duplicate of `handle` with `rights` is refused, if it is.
pub open spec fn duplicate_refusal(
    t: HandleTableView,
    objects: ObjectTableView,
    handle: Handle,
    rights: Rights,
) -> Option<KError> {
    match t.find(handle) {
        None => Some(KError::BadHandle),
        Some(e) => if !subset(rights@, e.rights@) {
            Some(KError::AccessDenied)
        } else if objects.find(e.object) is None {
            Some(KError::BadHandle)
        } else if t.full() {
            Some(KError::OutOfMemory)
        } else {
            None
        },
    }
}

/// Both tables after a duplicate of `handle` with `rights`, if it is not refused:
/// one handle and one reference more.
pub open spec fn duplicated(
    t: HandleTableView,
    objects: ObjectTableView,
    handle: Handle,
    rights: Rights,
) -> (HandleTableView, ObjectTableView) {
    if duplicate_refusal(t, objects, handle, rights) is None {
        let object = t.find(handle)->0.object;
        (t.inserted(object, rights), objects.retained(object))
    } else {
        (t, objects)
    }
}

/// A refused duplicate, whatever it is refused for and a full table among it,
/// changes no reference count and no handle.
pub proof fn law_a_refused_duplicate_changes_nothing(
    t: HandleTableView,
    objects: ObjectTableView,
    handle: Handle,
    rights: Rights,
    id: ObjectId,
    other: Handle,
)
    requires
        duplicate_refusal(t, objects, handle, rights) is Some,
    ensures
        duplicated(t, objects, handle, rights).1.find(id) == objects.find(id),
        duplicated(t, objects, handle, rights).0.find(other) == t.find(other),
        duplicated(t, objects, handle, rights) == (t, objects),
{
}

impl View for HandleTable {
    type V = HandleTableView;

    closed spec fn view(&self) -> HandleTableView {
        HandleTableView { slots: self.slots@, generations: self.generations@ }
    }
}

/// Whether `object` is among the first `n` entries of `out`.
pub open spec fn reported(out: Seq<(ObjectId, Rights)>, object: ObjectId) -> bool {
    exists|k: int| 0 <= k < out.len() && (#[trigger] out[k]).0 == object
}

/// The table left when every handle to a reported object among the first `n`
/// slots has been taken.
pub open spec fn reclaimed_upto(
    before: HandleTableView,
    out: Seq<(ObjectId, Rights)>,
    n: int,
) -> HandleTableView {
    let gone = |i: int|
        i < n && before.slots[i] is Some && reported(out, before.slots[i]->0.object);
    HandleTableView {
        slots: Seq::new(
            before.slots.len(),
            |i: int|
                if gone(i) {
                    None
                } else {
                    before.slots[i]
                },
        ),
        generations: Seq::new(
            before.generations.len(),
            |i: int|
                if gone(i) {
                    next_generation(before.generations[i])
                } else {
                    before.generations[i]
                },
        ),
    }
}

/// `out` lists distinct objects of `wanted`, each with the rights of the first
/// handle that named it, in the order in which those handles stand.
pub open spec fn reclaim_lists(
    before: HandleTableView,
    wanted: Seq<ObjectId>,
    out: Seq<(ObjectId, Rights)>,
) -> bool {
    &&& forall|k: int|
        0 <= k < out.len() ==> {
            let at = slots::first(before.slots, naming((#[trigger] out[k]).0));
            wanted.contains(out[k].0) && at < before.slots.len() && out[k].1
                == before.slots[at]->0.rights
        }
    &&& forall|j: int, k: int|
        0 <= j < k < out.len() ==> slots::first(before.slots, naming((#[trigger] out[j]).0))
            < slots::first(before.slots, naming((#[trigger] out[k]).0))
}

impl HandleTable {
    /// The table's invariant.
    pub open spec fn wf(&self) -> bool {
        self@.wf()
    }

    pub fn new() -> (t: HandleTable)
        ensures
            t.wf(),
            t@ == HandleTableView::empty(),
    {
        let t = HandleTable {
            slots: slots::empty_slots(MAX_HANDLES),
            generations: vec![0u16; MAX_HANDLES],
        };
        assert(t@ =~= HandleTableView::empty());
        t
    }

    /// Installs a handle that adopts one reference to `object` (the caller
    /// transfers a reference it already holds, such as the creation reference
    /// from [`ObjectTable::create`] or one produced by
    /// [`ObjectTable::retain`]). On failure the caller still owns the
    /// reference.
    pub fn insert(&mut self, object: ObjectId, rights: Rights) -> (r: Result<Handle, KError>)
        requires
            old(self).wf(),
        ensures
            final(self).wf(),
            match r {
                Ok(handle) => {
                    &&& !old(self)@.full()
                    &&& handle == old(self)@.next_handle()
                    &&& final(self)@ == old(self)@.inserted(object, rights)
                    &&& old(self)@.find(handle) is None
                    &&& final(self)@.find(handle) == Some(
                        HandleEntry { object, rights, scope: None },
                    )
                },
                Err(e) => {
                    &&& e == KError::OutOfMemory
                    &&& old(self)@.full()
                    &&& final(self)@ == old(self)@
                },
            },
    {
        match slots::find_free(&self.slots) {
            None => Err(KError::OutOfMemory),
            Some(index) => {
                self.slots[index] = Some(HandleEntry { object, rights, scope: None });
                proof {
                    slots::lemma_packed(index as int, self.generations@[index as int]);
                }
                Ok(Handle::new(index, self.generations[index]))
            },
        }
    }

    /// The object and rights a handle names.
    pub fn lookup(&self, handle: Handle) -> (r: Result<(ObjectId, Rights), KError>)
        requires
            self.wf(),
        ensures
            r == match self@.find(handle) {
                Some(e) => Ok::<_, KError>((e.object, e.rights)),
                None => Err(KError::BadHandle),
            },
    {
        match self.entry(handle) {
            Ok(e) => Ok((e.object, e.rights)),
            Err(e) => Err(e),
        }
    }

    /// The object a handle names.
    pub fn object(&self, handle: Handle) -> (r: Result<ObjectId, KError>)
        requires
            self.wf(),
        ensures
            r == match self@.find(handle) {
                Some(e) => Ok::<_, KError>(e.object),
                None => Err(KError::BadHandle),
            },
    {
        match self.entry(handle) {
            Ok(e) => Ok(e.object),
            Err(e) => Err(e),
        }
    }

    /// The rights a handle carries.
    pub fn rights(&self, handle: Handle) -> (r: Result<Rights, KError>)
        requires
            self.wf(),
        ensures
            r == match self@.find(handle) {
                Some(e) => Ok::<_, KError>(e.rights),
                None => Err(KError::BadHandle),
            },
    {
        match self.entry(handle) {
            Ok(e) => Ok(e.rights),
            Err(e) => Err(e),
        }
    }

    /// The revocation scope this handle belongs to, if any.
    pub fn scope(&self, handle: Handle) -> (r: Result<Option<ScopeRef>, KError>)
        requires
            self.wf(),
        ensures
            r == match self@.find(handle) {
                Some(e) => Ok::<_, KError>(e.scope),
                None => Err(KError::BadHandle),
            },
    {
        match self.entry(handle) {
            Ok(e) => Ok(e.scope),
            Err(e) => Err(e),
        }
    }

    /// Duplicates a handle with a reduced rights set. `new_rights` must be a
    /// subset of the handle's current rights, else [`KError::AccessDenied`]:
    /// duplication can only narrow authority, never expand it. The new handle
    /// references the same object (one additional reference). A refused
    /// duplicate, a full table's among them, changes no count and no handle.
    pub fn duplicate(
        &mut self,
        objects: &mut ObjectTable,
        handle: Handle,
        new_rights: Rights,
    ) -> (r: Result<Handle, KError>)
        requires
            old(self).wf(),
            old(objects).wf(),
            duplicate_refusal(old(self)@, old(objects)@, handle, new_rights) is None ==> old(
                objects,
            )@.find(old(self)@.find(handle)->0.object)->0.refcount < usize::MAX,
        ensures
            final(self).wf(),
            final(objects).wf(),
            r == match duplicate_refusal(old(self)@, old(objects)@, handle, new_rights) {
                None => Ok::<_, KError>(old(self)@.next_handle()),
                Some(err) => Err(err),
            },
            (final(self)@, final(objects)@) == duplicated(
                old(self)@,
                old(objects)@,
                handle,
                new_rights,
            ),
            r is Err ==> final(self)@ == old(self)@ && final(objects)@ == old(objects)@,
    {
        let e = match self.entry(handle) {
            Ok(e) => e,
            Err(err) => {
                return Err(err);
            },
        };
        if !new_rights.is_subset_of(e.rights) {
            return Err(KError::AccessDenied);
        }
        if !objects.is_live(e.object) {
            return Err(KError::BadHandle);
        }
        // A full table refuses before a reference is taken.
        if slots::find_free(&self.slots).is_none() {
            return Err(KError::OutOfMemory);
        }
        match objects.retain(e.object) {
            Err(err) => Err(err),
            Ok(_) => self.insert(e.object, new_rights),
        }
    }

    /// Replaces a handle's rights in place with a reduced set. `new_rights`
    /// must be a subset of the current rights, else [`KError::AccessDenied`].
    pub fn replace_rights(&mut self, handle: Handle, new_rights: Rights) -> (r: Result<(), KError>)
        requires
            old(self).wf(),
        ensures
            final(self).wf(),
            match r {
                Ok(_) => {
                    &&& old(self)@.find(handle) is Some
                    &&& subset(new_rights@, old(self)@.find(handle)->0.rights@)
                    &&& final(self)@ == old(self)@.reduced(handle, new_rights)
                },
                Err(err) => {
                    &&& final(self)@ == old(self)@
                    &&& match old(self)@.find(handle) {
                        None => err == KError::BadHandle,
                        Some(e) => !subset(new_rights@, e.rights@) && err == KError::AccessDenied,
                    }
                },
            },
    {
        match self.entry(handle) {
            Err(err) => Err(err),
            Ok(e) => {
                if !new_rights.is_subset_of(e.rights) {
                    return Err(KError::AccessDenied);
                }
                let index: usize = handle.index();
                self.slots[index] = Some(
                    HandleEntry { object: e.object, rights: new_rights, scope: e.scope },
                );
                Ok(())
            },
        }
    }

    /// Removes a handle for transfer, returning its object reference and rights
    /// without releasing the reference: the reference is conserved and handed
    /// to the caller (an in-flight message), keeping the object alive between
    /// send and receive. Requires [`Rights::TRANSFER`].
    pub fn take(&mut self, handle: Handle) -> (r: Result<(ObjectId, Rights), KError>)
        requires
            old(self).wf(),
        ensures
            final(self).wf(),
            match r {
                Ok((object, rights)) => {
                    &&& old(self)@.find(handle) matches Some(e)
                    &&& e.object == object
                    &&& e.rights == rights
                    &&& subset(Rights::TRANSFER, rights@)
                    &&& final(self)@ == old(self)@.cleared(handle.index_of())
                    &&& final(self)@.find(handle) is None
                },
                Err(err) => {
                    &&& final(self)@ == old(self)@
                    &&& match old(self)@.find(handle) {
                        None => err == KError::BadHandle,
                        Some(e) => !subset(Rights::TRANSFER, e.rights@) && err
                            == KError::AccessDenied,
                    }
                },
            },
    {
        match self.entry(handle) {
            Err(err) => Err(err),
            Ok(e) => {
                if !e.rights.contains(Rights::from_bits(Rights::TRANSFER)) {
                    return Err(KError::AccessDenied);
                }
                self.clear(handle.index());
                Ok((e.object, e.rights))
            },
        }
    }

    /// Installs a conserved object reference (from [`take`](Self::take) on
    /// another table) as a new handle, adopting the reference. Rights follow the
    /// transferred handle.
    pub fn install(&mut self, object: ObjectId, rights: Rights) -> (r: Result<Handle, KError>)
        requires
            old(self).wf(),
        ensures
            final(self).wf(),
            match r {
                Ok(handle) => {
                    &&& !old(self)@.full()
                    &&& handle == old(self)@.next_handle()
                    &&& final(self)@ == old(self)@.inserted(object, rights)
                    &&& final(self)@.find(handle) == Some(
                        HandleEntry { object, rights, scope: None },
                    )
                },
                Err(e) => {
                    &&& e == KError::OutOfMemory
                    &&& old(self)@.full()
                    &&& final(self)@ == old(self)@
                },
            },
    {
        self.insert(object, rights)
    }

    /// Closes a handle, dropping its reference to the object. Returns whether
    /// the object was destroyed (its last reference dropped).
    pub fn close(&mut self, objects: &mut ObjectTable, handle: Handle) -> (r: Result<bool, KError>)
        requires
            old(self).wf(),
            old(objects).wf(),
        ensures
            final(self).wf(),
            final(objects).wf(),
            match old(self)@.find(handle) {
                None => {
                    &&& r == Err::<bool, _>(KError::BadHandle)
                    &&& final(self)@ == old(self)@
                    &&& final(objects)@ == old(objects)@
                },
                Some(e) => {
                    &&& final(self)@ == old(self)@.cleared(handle.index_of())
                    &&& match old(objects)@.find(e.object) {
                        None => {
                            &&& r == Err::<bool, _>(KError::BadHandle)
                            &&& final(objects)@ == old(objects)@
                        },
                        Some(o) => {
                            &&& r == Ok::<_, KError>(o.refcount == 1)
                            &&& final(objects)@ == old(objects)@.released(e.object)
                        },
                    }
                },
            },
    {
        match self.entry(handle) {
            Err(err) => Err(err),
            Ok(e) => {
                self.clear(handle.index());
                objects.release(e.object)
            },
        }
    }

    /// Number of live handles.
    pub fn count(&self) -> (n: usize)
        requires
            self.wf(),
        ensures
            n == slots::count(self@.slots, slots::used::<HandleEntry>()),
    {
        slots::count_used(&self.slots)
    }

    /// Whether any handle names `object`.
    pub fn holds(&self, object: ObjectId) -> (b: bool)
        requires
            self.wf(),
        ensures
            b == self@.holds(object),
    {
        let mut i: usize = 0;
        while i < MAX_HANDLES
            invariant
                i <= MAX_HANDLES,
                self.wf(),
                forall|j: int| 0 <= j < i ==> !naming(object)(#[trigger] self@.slots[j]),
            decreases MAX_HANDLES - i,
        {
            if let Some(e) = self.slots[i] {
                if e.object == object {
                    assert(naming(object)(self@.slots[i as int]));
                    return true;
                }
            }
            i += 1;
        }
        false
    }

    /// Takes back every handle to an object of `wanted`, with or without the
    /// transfer right, and lists each such object once with the rights of its
    /// first handle. At most `limit` objects are listed; the handles of one
    /// that no longer fits stay where they are, so nothing is taken unlisted.
    /// The references are conserved and pass to the caller.
    pub fn reclaim(&mut self, wanted: &Vec<ObjectId>, limit: usize) -> (out: Vec<
        (ObjectId, Rights),
    >)
        requires
            old(self).wf(),
        ensures
            final(self).wf(),
            out@.len() <= limit,
            reclaim_lists(old(self)@, wanted@, out@),
            final(self)@ == reclaimed_upto(old(self)@, out@, MAX_HANDLES as int),
            out@.len() < limit ==> forall|i: int|
                0 <= i < MAX_HANDLES && (#[trigger] old(self)@.slots[i]) is Some && wanted@.contains(
                    old(self)@.slots[i]->0.object,
                ) ==> reported(out@, old(self)@.slots[i]->0.object),
    {
        let mut out: Vec<(ObjectId, Rights)> = Vec::new();
        let mut i: usize = 0;
        let ghost before = self@;
        assert(reclaimed_upto(before, out@, 0) =~= before);
        while i < MAX_HANDLES
            invariant
                i <= MAX_HANDLES,
                self.wf(),
                before.wf(),
                out@.len() <= limit,
                reclaim_lists(before, wanted@, out@),
                self@ == reclaimed_upto(before, out@, i as int),
                forall|k: int|
                    0 <= k < out@.len() ==> slots::first(
                        before.slots,
                        naming((#[trigger] out@[k]).0),
                    ) < i,
                out@.len() < limit ==> forall|j: int|
                    0 <= j < i && (#[trigger] before.slots[j]) is Some && wanted@.contains(
                        before.slots[j]->0.object,
                    ) ==> reported(out@, before.slots[j]->0.object),
            decreases MAX_HANDLES - i,
        {
            let ghost table = self@;
            let ghost listed = out@;
            assert(self@.slots[i as int] == before.slots[i as int]);
            match self.slots[i] {
                None => {
                    assert(reclaimed_upto(before, out@, i + 1) =~= self@);
                },
                Some(e) => {
                    if contains_id(wanted, e.object) {
                        if is_reported(&out, e.object) {
                            self.clear(i);
                            assert(reclaimed_upto(before, out@, i + 1) =~= self@);
                        } else if out.len() < limit {
                            out.push((e.object, e.rights));
                            self.clear(i);
                            proof {
                                assert forall|j: int| 0 <= j < i implies !naming(e.object)(
                                    #[trigger] before.slots[j],
                                ) by {
                                    if naming(e.object)(before.slots[j]) {
                                        assert(reported(listed, e.object));
                                    }
                                }
                                slots::lemma_first_is(before.slots, naming(e.object), i as int);
                                assert(forall|k: int|
                                    0 <= k < listed.len() ==> out@[k] == listed[k]);
                                assert(out@[listed.len() as int] == (e.object, e.rights));
                                assert forall|o: ObjectId|
                                    reported(out@, o) == (reported(listed, o) || o
                                        == e.object) by {
                                    if reported(listed, o) {
                                        let k = choose|k: int|
                                            0 <= k < listed.len() && (#[trigger] listed[k]).0 == o;
                                        assert(out@[k].0 == o);
                                    }
                                    if o == e.object {
                                        assert(out@[listed.len() as int].0 == o);
                                    }
                                    if reported(out@, o) && !reported(listed, o) {
                                        let k = choose|k: int|
                                            0 <= k < out@.len() && (#[trigger] out@[k]).0 == o;
                                        if k < listed.len() {
                                            assert(listed[k].0 == o);
                                        }
                                    }
                                }
                                assert(reclaimed_upto(before, out@, i + 1) =~= self@);
                            }
                        } else {
                            assert(reclaimed_upto(before, out@, i + 1) =~= self@);
                        }
                    } else {
                        proof {
                            if reported(out@, e.object) {
                                let k = choose|k: int|
                                    0 <= k < out@.len() && (#[trigger] out@[k]).0 == e.object;
                                assert(wanted@.contains(out@[k].0));
                            }
                        }
                        assert(reclaimed_upto(before, out@, i + 1) =~= self@);
                    }
                },
            }
            i += 1;
        }
        out
    }

    fn clear(&mut self, index: usize)
        requires
            old(self).wf(),
            index < MAX_HANDLES,
        ensures
            final(self).wf(),
            final(self)@ == old(self)@.cleared(index as int),
    {
        self.slots[index] = None;
        let g: u16 = self.generations[index];
        self.generations[index] = g.wrapping_add(1);
    }

    fn entry(&self, handle: Handle) -> (r: Result<HandleEntry, KError>)
        requires
            self.wf(),
        ensures
            r == match self@.find(handle) {
                Some(e) => Ok::<_, KError>(e),
                None => Err(KError::BadHandle),
            },
            r is Ok ==> handle.index_of() < MAX_HANDLES && self@.slots[handle.index_of()] == Some(
                r->Ok_0,
            ),
    {
        let index: usize = handle.index();
        if index < MAX_HANDLES && self.generations[index] == handle.generation() {
            match self.slots[index] {
                Some(e) => Ok(e),
                None => Err(KError::BadHandle),
            }
        } else {
            Err(KError::BadHandle)
        }
    }
}

/// Whether `ids` contains `id`.
pub fn contains_id(ids: &Vec<ObjectId>, id: ObjectId) -> (b: bool)
    ensures
        b == ids@.contains(id),
{
    let mut i: usize = 0;
    while i < ids.len()
        invariant
            i <= ids@.len(),
            forall|j: int| 0 <= j < i ==> ids@[j] != id,
        decreases ids@.len() - i,
    {
        if ids[i] == id {
            return true;
        }
        i += 1;
    }
    false
}

fn is_reported(out: &Vec<(ObjectId, Rights)>, object: ObjectId) -> (b: bool)
    ensures
        b == reported(out@, object),
{
    let mut i: usize = 0;
    while i < out.len()
        invariant
            i <= out@.len(),
            forall|j: int| 0 <= j < i ==> (#[trigger] out@[j]).0 != object,
        decreases out@.len() - i,
    {
        if out[i].0 == object {
            return true;
        }
        i += 1;
    }
    false
}

impl Default for HandleTable {
    fn default() -> (t: HandleTable)
        ensures
            t.wf(),
            t@ == HandleTableView::empty(),
    {
        HandleTable::new()
    }
}

/// Every reference is accounted for: each live object's count is the number of
/// handles that name it plus the references in flight, and nothing names an
/// object that is not live.
pub open spec fn accounted(
    objects: ObjectTableView,
    handles: HandleTableView,
    in_flight: Multiset<ObjectId>,
) -> bool {
    &&& objects.wf()
    &&& handles.wf()
    &&& forall|id: ObjectId|
        (#[trigger] objects.find(id)) matches Some(e) ==> e.refcount == handles.references(id)
            + in_flight.count(id)
    &&& forall|i: int|
        0 <= i < MAX_HANDLES && (#[trigger] handles.slots[i]) is Some ==> objects.find(
            handles.slots[i]->0.object,
        ) is Some
    &&& forall|id: ObjectId| #[trigger] in_flight.count(id) > 0 ==> objects.find(id) is Some
}

/// An object id that is not live is named by no handle.
proof fn lemma_unreferenced(
    objects: ObjectTableView,
    handles: HandleTableView,
    in_flight: Multiset<ObjectId>,
    id: ObjectId,
)
    requires
        accounted(objects, handles, in_flight),
        objects.find(id) is None,
    ensures
        handles.references(id) == 0,
        in_flight.count(id) == 0,
{
    slots::lemma_count_zero(handles.slots, naming(id));
}

/// Putting a handle in the first free slot adds one reference to its object
/// and none to any other.
proof fn lemma_inserted_references(
    handles: HandleTableView,
    object: ObjectId,
    rights: Rights,
    id: ObjectId,
)
    requires
        handles.wf(),
        !handles.full(),
    ensures
        handles.inserted(object, rights).references(id) == handles.references(id) + (if id
            == object {
            1nat
        } else {
            0nat
        }),
{
    slots::lemma_first(handles.slots, slots::free::<HandleEntry>());
    slots::lemma_count_update(
        handles.slots,
        naming(id),
        handles.vacancy(),
        Some(HandleEntry { object, rights, scope: None }),
    );
}

/// Emptying a slot takes one reference from its object and none from any
/// other.
proof fn lemma_cleared_references(handles: HandleTableView, index: int, id: ObjectId)
    requires
        handles.wf(),
        0 <= index < MAX_HANDLES,
        handles.slots[index] is Some,
    ensures
        handles.references(id) == handles.cleared(index).references(id) + (if id
            == handles.slots[index]->0.object {
            1nat
        } else {
            0nat
        }),
{
    slots::lemma_count_update(handles.slots, naming(id), index, None);
}

/// Creating an object puts its one reference in flight.
pub proof fn law_create_accounts(
    objects: ObjectTableView,
    handles: HandleTableView,
    in_flight: Multiset<ObjectId>,
    object_type: ObjectType,
)
    requires
        accounted(objects, handles, in_flight),
        objects.vacancy() < MAX_OBJECTS,
    ensures
        accounted(objects.created(object_type), handles, in_flight.insert(objects.next_id())),
{
    let after = objects.created(object_type);
    let new = objects.next_id();
    slots::lemma_first(objects.slots, slots::free::<ObjectEntry>());
    slots::lemma_packed(objects.vacancy(), objects.generations[objects.vacancy()]);
    assert(objects.find(new) is None);
    lemma_unreferenced(objects, handles, in_flight, new);
    assert forall|id: ObjectId| id != new implies #[trigger] after.find(id) == objects.find(id) by {
        assert(id.0 == id.generation_of() * 0x1_0000 + id.index_of());
        assert(new.0 == new.generation_of() * 0x1_0000 + new.index_of());
    }
    assert forall|i: int|
        0 <= i < MAX_HANDLES && (#[trigger] handles.slots[i]) is Some implies after.find(
        handles.slots[i]->0.object,
    ) is Some by {
        assert(objects.find(handles.slots[i]->0.object) is Some);
    }
    assert forall|id: ObjectId| #[trigger]
        in_flight.insert(new).count(id) > 0 implies after.find(id) is Some by {
        if id != new {
            assert(in_flight.count(id) > 0);
        }
    }
}

/// Installing a reference that is in flight moves it into the table: inserting
/// the creation reference, and installing one taken from another table, both
/// keep every count right.
pub proof fn law_insert_accounts(
    objects: ObjectTableView,
    handles: HandleTableView,
    in_flight: Multiset<ObjectId>,
    object: ObjectId,
    rights: Rights,
)
    requires
        accounted(objects, handles, in_flight),
        !handles.full(),
        in_flight.count(object) > 0,
    ensures
        accounted(objects, handles.inserted(object, rights), in_flight.remove(object)),
{
    let after = handles.inserted(object, rights);
    slots::lemma_first(handles.slots, slots::free::<HandleEntry>());
    assert forall|id: ObjectId| (#[trigger] objects.find(id)) is Some implies objects.find(
        id,
    )->0.refcount == after.references(id) + in_flight.remove(object).count(id) by {
        lemma_inserted_references(handles, object, rights, id);
    }
    assert forall|i: int|
        0 <= i < MAX_HANDLES && (#[trigger] after.slots[i]) is Some implies objects.find(
        after.slots[i]->0.object,
    ) is Some by {
        if i != handles.vacancy() {
            assert(handles.slots[i] is Some);
        }
    }
    assert forall|id: ObjectId| #[trigger]
        in_flight.remove(object).count(id) > 0 implies objects.find(id) is Some by {
        assert(in_flight.count(id) > 0);
    }
}

/// Duplicating takes a reference and gives it a handle, so the accounts stay
/// balanced.
pub proof fn law_duplicate_accounts(
    objects: ObjectTableView,
    handles: HandleTableView,
    in_flight: Multiset<ObjectId>,
    handle: Handle,
    rights: Rights,
)
    requires
        accounted(objects, handles, in_flight),
        handles.find(handle) is Some,
        !handles.full(),
        objects.find(handles.find(handle)->0.object)->0.refcount < usize::MAX,
    ensures
        accounted(
            objects.retained(handles.find(handle)->0.object),
            handles.inserted(handles.find(handle)->0.object, rights),
            in_flight,
        ),
{
    let object = handles.find(handle)->0.object;
    let after = handles.inserted(object, rights);
    slots::lemma_first(handles.slots, slots::free::<HandleEntry>());
    let kept = objects.retained(object);
    assert(handles.slots[handle.index_of()] is Some);
    assert(objects.find(object) is Some);
    assert forall|id: ObjectId| #[trigger] kept.find(id) == (if id == object {
        Some(
            ObjectEntry {
                refcount: (objects.find(object)->0.refcount + 1) as usize,
                ..objects.find(object)->0
            },
        )
    } else {
        objects.find(id)
    }) by {
        assert(id.0 == id.generation_of() * 0x1_0000 + id.index_of());
        assert(object.0 == object.generation_of() * 0x1_0000 + object.index_of());
    }
    assert forall|id: ObjectId| (#[trigger] kept.find(id)) is Some implies kept.find(id)->0.refcount
        == after.references(id) + in_flight.count(id) by {
        lemma_inserted_references(handles, object, rights, id);
        assert(objects.find(id) is Some);
    }
    assert forall|i: int| 0 <= i < MAX_HANDLES && (#[trigger] after.slots[i]) is Some implies kept.find(
        after.slots[i]->0.object,
    ) is Some by {
        if i != handles.vacancy() {
            assert(handles.slots[i] is Some);
        }
    }
    assert forall|id: ObjectId| #[trigger] in_flight.count(id) > 0 implies kept.find(
        id,
    ) is Some by {
        assert(objects.find(id) is Some);
    }
}

/// Taking a handle for transfer puts its reference in flight; the object's
/// count does not change.
pub proof fn law_take_accounts(
    objects: ObjectTableView,
    handles: HandleTableView,
    in_flight: Multiset<ObjectId>,
    handle: Handle,
)
    requires
        accounted(objects, handles, in_flight),
        handles.find(handle) is Some,
    ensures
        accounted(
            objects,
            handles.cleared(handle.index_of()),
            in_flight.insert(handles.find(handle)->0.object),
        ),
{
    let object = handles.find(handle)->0.object;
    let index = handle.index_of();
    let after = handles.cleared(index);
    assert(handles.slots[index] is Some);
    assert forall|id: ObjectId| (#[trigger] objects.find(id)) is Some implies objects.find(
        id,
    )->0.refcount == after.references(id) + in_flight.insert(object).count(id) by {
        lemma_cleared_references(handles, index, id);
    }
    assert forall|i: int|
        0 <= i < MAX_HANDLES && (#[trigger] after.slots[i]) is Some implies objects.find(
        after.slots[i]->0.object,
    ) is Some by {
        assert(handles.slots[i] is Some);
    }
    assert forall|id: ObjectId| #[trigger]
        in_flight.insert(object).count(id) > 0 implies objects.find(id) is Some by {
        if id != object {
            assert(in_flight.count(id) > 0);
        }
    }
}

/// Closing a handle drops exactly the reference it held; when that was the
/// last one, nothing is left naming the object.
pub proof fn law_close_accounts(
    objects: ObjectTableView,
    handles: HandleTableView,
    in_flight: Multiset<ObjectId>,
    handle: Handle,
)
    requires
        accounted(objects, handles, in_flight),
        handles.find(handle) is Some,
    ensures
        accounted(
            objects.released(handles.find(handle)->0.object),
            handles.cleared(handle.index_of()),
            in_flight,
        ),
        objects.find(handles.find(handle)->0.object)->0.refcount == 1 ==> handles.cleared(
            handle.index_of(),
        ).references(handles.find(handle)->0.object) == 0,
{
    let object = handles.find(handle)->0.object;
    let index = handle.index_of();
    let after = handles.cleared(index);
    let kept = objects.released(object);
    let e = objects.find(object)->0;
    assert(handles.slots[index] is Some);
    assert(objects.find(object) is Some);
    lemma_cleared_references(handles, index, object);
    assert forall|id: ObjectId| id != object implies #[trigger] kept.find(id) == objects.find(id)
        || (kept.find(id) is None && objects.find(id) is None) by {
        assert(id.0 == id.generation_of() * 0x1_0000 + id.index_of());
        assert(object.0 == object.generation_of() * 0x1_0000 + object.index_of());
    }
    assert forall|id: ObjectId| (#[trigger] kept.find(id)) is Some implies kept.find(id)->0.refcount
        == after.references(id) + in_flight.count(id) by {
        lemma_cleared_references(handles, index, id);
        assert(objects.find(id) is Some);
    }
    assert forall|i: int| 0 <= i < MAX_HANDLES && (#[trigger] after.slots[i]) is Some implies kept.find(
        after.slots[i]->0.object,
    ) is Some by {
        assert(handles.slots[i] is Some);
        assert(objects.find(after.slots[i]->0.object) is Some);
        if after.slots[i]->0.object == object {
            slots::lemma_count_positive(after.slots, naming(object), i);
        }
    }
    assert forall|id: ObjectId| #[trigger] in_flight.count(id) > 0 implies kept.find(
        id,
    ) is Some by {
        assert(objects.find(id) is Some);
    }
}

/// A duplicate never carries a right its source lacked, whatever the number of
/// duplications and replacements between them.
pub proof fn law_rights_only_narrow(
    handles: HandleTableView,
    handle: Handle,
    narrowed: Rights,
    again: Rights,
)
    requires
        handles.wf(),
        handles.find(handle) is Some,
        subset(narrowed@, handles.find(handle)->0.rights@),
        subset(again@, narrowed@),
    ensures
        handles.reduced(handle, narrowed).find(handle)->0.rights == narrowed,
        handles.reduced(handle, narrowed).reduced(handle, again).find(handle)->0.rights == again,
        subset(again@, handles.find(handle)->0.rights@),
{
    crate::rights::law_narrowing_composes(again, narrowed, handles.find(handle)->0.rights);
}

/// An inserted handle names what was inserted, with the rights it was given; it
/// named nothing before, and every other handle is as it was.
pub proof fn law_an_inserted_handle_names_its_object(
    t: HandleTableView,
    object: ObjectId,
    rights: Rights,
    other: Handle,
)
    requires
        t.wf(),
        !t.full(),
        other != t.next_handle(),
    ensures
        t.find(t.next_handle()) is None,
        t.inserted(object, rights).find(t.next_handle()) matches Some(e) && e.object == object
            && e.rights == rights && e.scope is None,
        t.inserted(object, rights).find(other) == t.find(other),
{
    slots::lemma_first(t.slots, slots::free::<HandleEntry>());
    let i = t.vacancy();
    slots::lemma_packed(i, t.generations[i]);
    let new = t.next_handle();
    assert(other.0 == other.generation_of() * 0x1_0000 + other.index_of());
    assert(new.0 == new.generation_of() * 0x1_0000 + new.index_of());
}

/// A closed or taken handle names nothing, and is not given out again for the
/// next object in its slot; every other handle is as it was.
pub proof fn law_a_cleared_handle_is_dead(
    t: HandleTableView,
    handle: Handle,
    other: Handle,
    object: ObjectId,
    rights: Rights,
)
    requires
        t.wf(),
        t.find(handle) is Some,
        t.find(other) is Some,
        other != handle,
    ensures
        t.cleared(handle.index_of()).find(handle) is None,
        t.cleared(handle.index_of()).find(other) == t.find(other),
        !t.cleared(handle.index_of()).full(),
        t.cleared(handle.index_of()).next_handle() != handle,
        t.cleared(handle.index_of()).inserted(object, rights).find(handle) is None,
{
    let i = handle.index_of();
    assert(other.0 == other.generation_of() * 0x1_0000 + other.index_of());
    assert(handle.0 == handle.generation_of() * 0x1_0000 + handle.index_of());
    let c = t.cleared(i);
    let free = slots::free::<HandleEntry>();
    slots::lemma_first(c.slots, free);
    assert(free(c.slots[i]));
    slots::lemma_packed(c.vacancy(), c.generations[c.vacancy()]);
}

/// Replacing a handle's rights changes those rights: it names the same object,
/// in the same scope, and every other handle is as it was.
pub proof fn law_reducing_changes_only_the_rights(
    t: HandleTableView,
    handle: Handle,
    rights: Rights,
    other: Handle,
)
    requires
        t.wf(),
        t.find(handle) is Some,
        other != handle,
    ensures
        t.reduced(handle, rights).find(handle) matches Some(e) && e.rights == rights && e.object
            == t.find(handle)->0.object && e.scope == t.find(handle)->0.scope,
        t.reduced(handle, rights).find(other) == t.find(other),
{
    assert(other.0 == other.generation_of() * 0x1_0000 + other.index_of());
    assert(handle.0 == handle.generation_of() * 0x1_0000 + handle.index_of());
}

/// A duplicate is another handle to the same object: it has the rights asked
/// for, each of which the source has, the object is referenced once more, and
/// the source is as it was.
pub proof fn law_a_duplicate_names_the_same_object(
    t: HandleTableView,
    objects: ObjectTableView,
    handle: Handle,
    rights: Rights,
)
    requires
        t.wf(),
        objects.wf(),
        duplicate_refusal(t, objects, handle, rights) is None,
        objects.find(t.find(handle)->0.object)->0.refcount < usize::MAX,
    ensures
        ({
            let (u, kept) = duplicated(t, objects, handle, rights);
            let e = t.find(handle)->0;
            &&& u.find(t.next_handle()) matches Some(d) && d.object == e.object && d.rights
                == rights
            &&& t.next_handle() != handle
            &&& u.find(handle) == t.find(handle)
            &&& kept.find(e.object) matches Some(k) && k.refcount == objects.find(
                e.object,
            )->0.refcount + 1
            &&& forall|i: u64|
                i < 64 && #[trigger] crate::rights::holds(rights@, i) ==> crate::rights::holds(
                    e.rights@,
                    i,
                )
        }),
{
    let e = t.find(handle)->0;
    slots::lemma_first(t.slots, slots::free::<HandleEntry>());
    slots::lemma_packed(t.vacancy(), t.generations[t.vacancy()]);
    law_an_inserted_handle_names_its_object(t, e.object, rights, handle);
    crate::rights::law_subset_is_bitwise(rights@, e.rights@);
}

/// A duplicate is refused for a reason that holds.
pub proof fn law_a_duplicate_is_refused_for_cause(
    t: HandleTableView,
    objects: ObjectTableView,
    handle: Handle,
    rights: Rights,
)
    requires
        t.wf(),
    ensures
        t.find(handle) is None ==> duplicate_refusal(t, objects, handle, rights) == Some(
            KError::BadHandle,
        ),
        t.find(handle) matches Some(e) ==> {
            &&& (exists|i: u64|
                i < 64 && #[trigger] crate::rights::holds(rights@, i) && !crate::rights::holds(
                    e.rights@,
                    i,
                )) <==> duplicate_refusal(t, objects, handle, rights) == Some(KError::AccessDenied)
            &&& duplicate_refusal(t, objects, handle, rights) == Some(KError::OutOfMemory)
                ==> forall|k: int| 0 <= k < MAX_HANDLES ==> #[trigger] t.slots[k] is Some
        },
{
    let free = slots::free::<HandleEntry>();
    slots::lemma_first(t.slots, free);
    if t.full() {
        assert forall|k: int| 0 <= k < MAX_HANDLES implies #[trigger] t.slots[k] is Some by {
            assert(!free(t.slots[k]));
        }
    }
    if let Some(e) = t.find(handle) {
        crate::rights::law_subset_is_bitwise(rights@, e.rights@);
    }
}

/// A table has room exactly while a slot is free, what a handle finds is in the
/// slot it gives while its generation is that slot's, and an object is held
/// exactly while a slot names it.
pub proof fn law_a_handle_is_a_slot_and_a_generation(
    t: HandleTableView,
    handle: Handle,
    object: ObjectId,
)
    requires
        t.wf(),
    ensures
        t.full() <==> forall|k: int| 0 <= k < MAX_HANDLES ==> #[trigger] t.slots[k] is Some,
        t.find(handle) matches Some(e) ==> handle.0 % 0x1_0000 < MAX_HANDLES
            && t.slots[handle.0 as int % 0x1_0000] == Some(e) && t.generations[handle.0 as int
            % 0x1_0000] as int == handle.0 as int / 0x1_0000,
        handle.0 % 0x1_0000 < MAX_HANDLES && t.generations[handle.0 as int % 0x1_0000] as int
            == handle.0 as int / 0x1_0000 ==> t.find(handle) == t.slots[handle.0 as int % 0x1_0000],
        t.holds(object) <==> exists|k: int|
            0 <= k < MAX_HANDLES && (#[trigger] t.slots[k] matches Some(e) && e.object == object),
        t.holds(object) <==> t.references(object) > 0,
        HandleTableView::empty().find(handle) is None,
{
    let free = slots::free::<HandleEntry>();
    slots::lemma_first(t.slots, free);
    if t.full() {
        assert forall|k: int| 0 <= k < MAX_HANDLES implies #[trigger] t.slots[k] is Some by {
            assert(!free(t.slots[k]));
        }
    } else {
        assert(free(t.slots[t.vacancy()]));
    }
    let names = naming(object);
    if t.holds(object) {
        let k = choose|k: int| 0 <= k < t.slots.len() && names(#[trigger] t.slots[k]);
        assert(t.slots[k] matches Some(e) && e.object == object);
        slots::lemma_count_positive(t.slots, names, k);
    } else {
        assert forall|k: int| 0 <= k < t.slots.len() implies !names(#[trigger] t.slots[k]) by {}
        slots::lemma_count_zero(t.slots, names);
        assert forall|k: int| 0 <= k < MAX_HANDLES implies !(#[trigger] t.slots[k] matches Some(e)
            && e.object == object) by {
            assert(!names(t.slots[k]));
        }
    }
}

/// Reclaiming takes every handle to the objects it reports, up to where it got,
/// and leaves all others as they were; a handle that went is dead.
pub proof fn law_reclaiming_takes_what_it_reports(
    t: HandleTableView,
    out: Seq<(ObjectId, Rights)>,
    n: int,
    i: int,
)
    requires
        t.wf(),
        0 <= i < MAX_HANDLES,
    ensures
        reclaimed_upto(t, out, n).wf(),
        ({
            let u = reclaimed_upto(t, out, n);
            let goes = i < n && (t.slots[i] matches Some(e) && exists|k: int|
                0 <= k < out.len() && (#[trigger] out[k]).0 == e.object);
            &&& goes ==> u.slots[i] is None && u.generations[i] != t.generations[i]
            &&& !goes ==> u.slots[i] == t.slots[i] && u.generations[i] == t.generations[i]
        }),
{
}

/// What is reported as reclaimed was wanted and was held, with the rights of its
/// first handle, and nothing is reported twice.
pub proof fn law_a_reclaimed_object_was_wanted_and_held(
    t: HandleTableView,
    wanted: Seq<ObjectId>,
    out: Seq<(ObjectId, Rights)>,
    j: int,
    k: int,
)
    requires
        t.wf(),
        reclaim_lists(t, wanted, out),
        0 <= j < k < out.len(),
    ensures
        wanted.contains(out[k].0),
        exists|i: int|
            0 <= i < MAX_HANDLES && (#[trigger] t.slots[i] matches Some(e) && e.object == out[k].0
                && e.rights == out[k].1),
        out[j].0 != out[k].0,
{
    slots::lemma_first(t.slots, naming(out[k].0));
    let at = slots::first(t.slots, naming(out[k].0));
    assert(naming(out[k].0)(t.slots[at]));
}

} // verus!
