//! Memory objects through the executive: the machine's table, the page-cache
//! budget, and the paths on which a device must stop reaching an object before
//! its frames move.
use vstd::prelude::*;
use crate::config::{MAX_MEMORY_OBJECTS, MAX_OBJECT_PAGES};
use crate::error::KError;
use crate::exec::{ExecView, Executive, MachineView};
use crate::frame::{
    asked, dry_after, frees, hands_out, lemma_asked, lemma_asked_nothing, FrameMemory, FrameOp,
    FrameSource, PhysFrame,
};
use crate::hardware::{DmaMapper, DmaOp};
use crate::memory::{
    apart, create_asks, created, evicted, filled, first_fit, flushable, held_by, listed, lowest_dirty, named,
    other_than, present, reclaimable, strength, supply_refusal, Attachment, MemoryClass,
    MemoryObjectView, MemoryView, Placement,
};
use crate::object::ObjectId;
use crate::pager::{DirtyOutcome, WriteBackReservation};
use crate::slots;

verus! {

impl ExecView {
    /// With the page-cache budget replaced.
    pub open spec fn with_budget(self, cache_budget: WriteBackReservation) -> ExecView {
        ExecView { machine: MachineView { cache_budget, ..self.machine }, ..self }
    }
}

impl Executive {
    /// Backs a new memory object with `pages` drawn frames, each cleared before
    /// the object exists.
    pub fn memory_create<F: FrameSource, Z: FrameMemory>(
        &mut self,
        owner: ObjectId,
        pages: usize,
        placement: Placement,
        contents: &mut Z,
        alloc: &mut F,
    ) -> (r: Result<ObjectId, KError>)
        requires
            old(self).wf(),
            old(self)@.machine.memory.next_id < u32::MAX,
            old(alloc).inv(),
            old(contents).inv(),
        ensures
            final(self).wf(),
            final(alloc).inv(),
            final(contents).inv(),
            final(self)@ == old(self)@.with_memory(final(self)@.machine.memory),
            forall|i: int|
                old(contents).zeroed().len() <= i < final(contents).zeroed().len()
                    ==> final(contents).blank(#[trigger] final(contents).zeroed()[i]),
            ({
                let v = old(self)@.machine.memory;
                let fit = first_fit(v.taken, pages as int);
                if pages == 0 || pages > MAX_OBJECT_PAGES {
                    &&& r == Err::<ObjectId, _>(KError::InvalidMapping)
                    &&& final(self)@.machine.memory == v
                    &&& *final(alloc) == *old(alloc)
                    &&& final(contents).zeroed() == old(contents).zeroed()
                } else if v.vacancy() == MAX_MEMORY_OBJECTS {
                    &&& r == Err::<ObjectId, _>(KError::OutOfMemory)
                    &&& final(self)@.machine.memory == v
                    &&& *final(alloc) == *old(alloc)
                    &&& final(contents).zeroed() == old(contents).zeroed()
                } else if fit is None {
                    &&& r == Err::<ObjectId, _>(KError::OutOfFrameSlots)
                    &&& final(self)@.machine.memory == v
                    &&& *final(alloc) == *old(alloc)
                    &&& final(contents).zeroed() == old(contents).zeroed()
                } else {
                    exists|frames: Seq<PhysFrame>| #[trigger]
                        created(
                            v,
                            final(self)@.machine.memory,
                            old(contents).zeroed(),
                            final(contents).zeroed(),
                            owner,
                            pages as int,
                            placement,
                            frames,
                            r,
                        ) && hands_out(*old(alloc), frames) && (frames.len() < pages ==> dry_after(
                            *old(alloc),
                            frames,
                        )) && asked(
                            *old(alloc),
                            *final(alloc),
                            create_asks(frames, pages as int, r is Ok),
                        )
                }
            }),
    {
        let r = self.machine.memory.create(owner, pages, placement, contents, alloc);
        assert(self@ =~= old(self)@.with_memory(self.machine.memory@));
        r
    }

    /// Creates a service-backed object of `pages` pages supplied by `pager`.
    pub fn memory_create_paged(&mut self, owner: ObjectId, pages: usize, pager: ObjectId) -> (r:
        Result<ObjectId, KError>)
        requires
            old(self).wf(),
            old(self)@.machine.memory.next_id < u32::MAX,
        ensures
            final(self).wf(),
            ({
                let v = old(self)@.machine.memory;
                let fit = first_fit(v.taken, pages as int);
                match r {
                    Ok(object) => {
                        &&& 1 <= pages <= MAX_OBJECT_PAGES
                        &&& v.vacancy() < MAX_MEMORY_OBJECTS
                        &&& fit is Some
                        &&& object == ObjectId(v.next_id)
                        &&& final(self)@ == old(self)@.with_memory(
                            v.added(
                                MemoryObjectView::paged(
                                    object,
                                    owner,
                                    fit->0,
                                    pages as int,
                                    pager,
                                ),
                                slots::empty(pages as nat),
                            ),
                        )
                    },
                    Err(e) => {
                        &&& final(self)@ == old(self)@
                        &&& if pages == 0 || pages > MAX_OBJECT_PAGES {
                            e == KError::InvalidMapping
                        } else if v.vacancy() == MAX_MEMORY_OBJECTS {
                            e == KError::OutOfMemory
                        } else {
                            e == KError::OutOfFrameSlots && fit is None
                        }
                    },
                }
            }),
    {
        let r = self.machine.memory.create_paged(owner, pages, pager);
        assert(self@ =~= old(self)@.with_memory(self.machine.memory@));
        r
    }

    /// The endpoint that supplies `object`'s pages, or `None` if it is
    /// kernel-backed.
    pub fn memory_pager_of(&self, object: ObjectId) -> (r: Option<ObjectId>)
        requires
            self.wf(),
        ensures
            r == match self@.machine.memory.find(object) {
                Some(o) => o.pager,
                None => None,
            },
    {
        self.machine.memory.pager_of(object)
    }

    /// The process that answers for `object`'s contents.
    pub fn memory_served_by(&self, object: ObjectId) -> (r: Option<ObjectId>)
        requires
            self.wf(),
        ensures
            r == match self@.machine.memory.find(object) {
                Some(o) => o.served_by,
                None => None,
            },
    {
        self.machine.memory.served_by(object)
    }

    /// Whether `object`'s pager has failed it.
    pub fn memory_is_faulted(&self, object: ObjectId) -> (r: bool)
        requires
            self.wf(),
        ensures
            r == match self@.machine.memory.find(object) {
                Some(o) => o.faulted,
                None => false,
            },
    {
        self.machine.memory.is_faulted(object)
    }

    /// Where `object`'s creator said it had to be.
    pub fn memory_placement_of(&self, object: ObjectId) -> (r: Option<Placement>)
        requires
            self.wf(),
        ensures
            r == match self@.machine.memory.find(object) {
                Some(o) => Some(o.placement),
                None => None,
            },
    {
        self.machine.memory.placement_of(object)
    }

    /// The handling path `object` is on.
    pub fn memory_class_of(&self, object: ObjectId) -> (r: Option<MemoryClass>)
        requires
            self.wf(),
        ensures
            r == match self@.machine.memory.find(object) {
                Some(o) => Some(o.class),
                None => None,
            },
    {
        self.machine.memory.class_of(object)
    }

    /// Where `object` is reachable from, if anywhere.
    pub fn memory_attachment_of(&self, object: ObjectId) -> (r: Option<Attachment>)
        requires
            self.wf(),
        ensures
            r == match self@.machine.memory.find(object) {
                Some(o) => o.attached,
                None => None,
            },
    {
        self.machine.memory.attachment_of(object)
    }

    /// The first holder of `object`, if it is a memory object and held.
    pub fn memory_owner_of(&self, object: ObjectId) -> (r: Option<ObjectId>)
        requires
            self.wf(),
        ensures
            r == match self@.machine.memory.find(object) {
                Some(o) => if o.holders.len() > 0 {
                    Some(o.holders[0])
                } else {
                    None
                },
                None => None,
            },
    {
        self.machine.memory.owner_of(object)
    }

    /// Takes a cache frame from the budget, or reports pressure.
    pub fn cache_take(&mut self) -> (r: Option<()>)
        requires
            old(self).wf(),
        ensures
            final(self).wf(),
            ({
                let b = old(self)@.machine.cache_budget;
                &&& r is Some == !b.pressed()
                &&& final(self)@ == (if b.pressed() {
                    old(self)@
                } else {
                    old(self)@.with_budget(
                        WriteBackReservation {
                            ordinary_in_use: (b.ordinary_in_use + 1) as u32,
                            ..b
                        },
                    )
                })
            }),
    {
        let r = self.machine.cache_budget.alloc_ordinary();
        assert(self@ =~= old(self)@.with_budget(self.machine.cache_budget));
        r
    }

    /// Gives a cache frame back to the budget.
    pub fn cache_give_back(&mut self)
        requires
            old(self).wf(),
        ensures
            final(self).wf(),
            ({
                let b = old(self)@.machine.cache_budget;
                final(self)@ == old(self)@.with_budget(
                    WriteBackReservation {
                        ordinary_in_use: if b.ordinary_in_use == 0 {
                            0
                        } else {
                            (b.ordinary_in_use - 1) as u32
                        },
                        ..b
                    },
                )
            }),
    {
        self.machine.cache_budget.free_ordinary();
        assert(self@ =~= old(self)@.with_budget(self.machine.cache_budget));
    }

    /// Whether only the write-back reservation remains.
    pub fn cache_at_pressure(&self) -> (b: bool)
        requires
            self.wf(),
        ensures
            b == self@.machine.cache_budget.pressed(),
    {
        self.machine.cache_budget.at_pressure()
    }

    /// Some object with a page that can be dropped, and which page.
    pub fn cache_evictable(&self) -> (r: Option<(ObjectId, u64)>)
        requires
            self.wf(),
        ensures
            ({
                let objects = self@.machine.memory.objects;
                let at = slots::first(objects, reclaimable());
                match r {
                    Some((object, offset)) => {
                        &&& at < MAX_MEMORY_OBJECTS
                        &&& objects[at]->0.object == object
                        &&& objects[at]->0.cache.evictable(offset)
                    },
                    None => at == MAX_MEMORY_OBJECTS,
                }
            }),
    {
        self.machine.memory.any_evictable()
    }

    /// Some object with a dirty page, and its lowest.
    pub fn cache_dirty_anywhere(&self) -> (r: Option<(ObjectId, u64)>)
        requires
            self.wf(),
        ensures
            ({
                let objects = self@.machine.memory.objects;
                let at = slots::first(objects, flushable());
                match r {
                    Some((object, offset)) => {
                        &&& at < MAX_MEMORY_OBJECTS
                        &&& objects[at]->0.object == object
                        &&& lowest_dirty(objects[at]->0.cache, offset)
                    },
                    None => at == MAX_MEMORY_OBJECTS,
                }
            }),
    {
        self.machine.memory.any_dirty()
    }

    /// Drops `object`'s page at `offset`, handing its frame back; refused for a
    /// dirty page.
    pub fn memory_evict(&mut self, object: ObjectId, offset: u64) -> (r: Option<PhysFrame>)
        requires
            old(self).wf(),
        ensures
            final(self).wf(),
            ({
                let v = old(self)@.machine.memory;
                match evicted(v, object, offset) {
                    Some(frame) => {
                        let o = v.find(object)->0;
                        let at = o.base + offset as int / crate::config::FRAME_SIZE as int;
                        &&& r == Some(frame)
                        &&& final(self)@ == old(self)@.with_memory(
                            MemoryView {
                                slots: v.slots.update(at, None),
                                ..v.with(
                                    object,
                                    MemoryObjectView { cache: o.cache.forgotten(offset), ..o },
                                )
                            },
                        )
                    },
                    None => r is None && final(self)@ == old(self)@,
                }
            }),
    {
        let r = self.machine.memory.evict(object, offset);
        assert(self@ =~= old(self)@.with_memory(self.machine.memory@));
        r
    }

    /// Records that `object`'s page at `offset` has been written, or throttles
    /// the writer.
    pub fn memory_mark_dirty(&mut self, object: ObjectId, offset: u64) -> (r: DirtyOutcome)
        requires
            old(self).wf(),
        ensures
            final(self).wf(),
            ({
                let v = old(self)@.machine.memory;
                match v.find(object) {
                    None => r == DirtyOutcome::Throttle && final(self)@ == old(self)@,
                    Some(o) => if o.cache.admits_store(offset) {
                        &&& r == DirtyOutcome::Marked
                        &&& final(self)@ == old(self)@.with_memory(
                            v.with(
                                object,
                                MemoryObjectView { cache: o.cache.stored(offset), ..o },
                            ),
                        )
                    } else {
                        r == DirtyOutcome::Throttle && final(self)@ == old(self)@
                    },
                }
            }),
    {
        let r = self.machine.memory.mark_dirty(object, offset);
        assert(self@ =~= old(self)@.with_memory(self.machine.memory@));
        r
    }

    /// Marks `object`'s page at `offset` clean, after its write-back was
    /// acknowledged.
    pub fn memory_mark_clean(&mut self, object: ObjectId, offset: u64)
        requires
            old(self).wf(),
        ensures
            final(self).wf(),
            ({
                let v = old(self)@.machine.memory;
                final(self)@ == match v.find(object) {
                    Some(o) => old(self)@.with_memory(
                        v.with(
                            object,
                            MemoryObjectView { cache: o.cache.cleaned(offset), ..o },
                        ),
                    ),
                    None => old(self)@,
                }
            }),
    {
        self.machine.memory.mark_clean(object, offset);
        assert(self@ =~= old(self)@.with_memory(self.machine.memory@));
    }

    /// Opens a write-back window over `object`'s page at `offset`.
    pub fn memory_write_back_started(&mut self, object: ObjectId, offset: u64)
        requires
            old(self).wf(),
        ensures
            final(self).wf(),
            ({
                let v = old(self)@.machine.memory;
                final(self)@ == match v.find(object) {
                    Some(o) => old(self)@.with_memory(
                        v.with(
                            object,
                            MemoryObjectView { cache: o.cache.write_back_begun(offset), ..o },
                        ),
                    ),
                    None => old(self)@,
                }
            }),
    {
        self.machine.memory.begin_write_back(object, offset);
        assert(self@ =~= old(self)@.with_memory(self.machine.memory@));
    }

    /// Closes the write-back window, reporting whether a store landed inside it.
    pub fn memory_write_back_finished(&mut self, object: ObjectId, offset: u64) -> (b: bool)
        requires
            old(self).wf(),
        ensures
            final(self).wf(),
            ({
                let v = old(self)@.machine.memory;
                match v.find(object) {
                    Some(o) => {
                        &&& b == (o.cache.resident(offset) && o.cache.page(offset).overtaken)
                        &&& final(self)@ == old(self)@.with_memory(
                            v.with(
                                object,
                                MemoryObjectView { cache: o.cache.write_back_ended(offset), ..o },
                            ),
                        )
                    },
                    None => !b && final(self)@ == old(self)@,
                }
            }),
    {
        let b = self.machine.memory.end_write_back(object, offset);
        assert(self@ =~= old(self)@.with_memory(self.machine.memory@));
        b
    }

    /// Whether `object`'s page at `offset` is dirty.
    pub fn memory_is_dirty(&self, object: ObjectId, offset: u64) -> (b: bool)
        requires
            self.wf(),
        ensures
            b == (self@.machine.memory.find(object) matches Some(o) && o.cache.is_dirty(offset)),
    {
        self.machine.memory.is_dirty(object, offset)
    }

    /// How many of `object`'s pages are dirty.
    pub fn memory_dirty_count(&self, object: ObjectId) -> (n: u32)
        requires
            self.wf(),
        ensures
            n == match self@.machine.memory.find(object) {
                Some(o) => o.cache.dirty_count(),
                None => 0,
            },
    {
        self.machine.memory.dirty_count(object)
    }

    /// Fills `out` with the offsets of `object`'s dirty pages, ascending.
    pub fn memory_dirty_offsets(&self, object: ObjectId, out: &mut [u64]) -> (n: usize)
        requires
            self.wf(),
        ensures
            match self@.machine.memory.find(object) {
                Some(o) => crate::pager::reports(
                    old(out)@,
                    final(out)@,
                    n as int,
                    crate::pager::dirty_list(o.cache.pages),
                ),
                None => n == 0 && final(out)@ == old(out)@,
            },
    {
        self.machine.memory.dirty_offsets(object, out)
    }

    /// Records `frame` as `object`'s page `page`.
    pub fn memory_supply(&mut self, object: ObjectId, page: usize, frame: PhysFrame) -> (r: Result<
        (),
        KError,
    >)
        requires
            old(self).wf(),
        ensures
            final(self).wf(),
            ({
                let v = old(self)@.machine.memory;
                match supply_refusal(v, object, page as int) {
                    Some(e) => r == Err::<(), _>(e) && final(self)@ == old(self)@,
                    None => {
                        let o = v.find(object)->0;
                        let offset = (page * crate::config::FRAME_SIZE) as u64;
                        let w = MemoryView {
                            slots: v.slots.update(o.base + page, Some(frame)),
                            ..v
                        };
                        if o.cache.faulted {
                            r == Err::<(), _>(KError::BadHandle) && final(self)@ == old(self)@
                        } else if !o.cache.resident(offset) && o.cache.vacancy()
                            == o.cache.pages.len() {
                            r == Err::<(), _>(KError::OutOfMemory) && final(self)@ == old(self)@
                        } else {
                            &&& r is Ok
                            &&& final(self)@ == old(self)@.with_memory(
                                w.with(
                                    object,
                                    MemoryObjectView { cache: o.cache.installed(offset), ..o },
                                ),
                            )
                        }
                    },
                }
            }),
    {
        let r = self.machine.memory.supply(object, page, frame);
        assert(self@ =~= old(self)@.with_memory(self.machine.memory@));
        r
    }

    /// The frame holding `object`'s page `page`, or `None` if not resident.
    pub fn memory_frame_at(&self, object: ObjectId, page: usize) -> (r: Option<PhysFrame>)
        requires
            self.wf(),
        ensures
            r == match self@.machine.memory.find(object) {
                Some(o) => if page < o.pages {
                    self@.machine.memory.slots[o.base + page]
                } else {
                    None
                },
                None => None,
            },
    {
        self.machine.memory.frame_at(object, page)
    }

    /// How many pages `object` spans.
    pub fn memory_pages_of(&self, object: ObjectId) -> (r: Option<usize>)
        requires
            self.wf(),
        ensures
            match r {
                Some(n) => self@.machine.memory.find(object) matches Some(o) && n == o.pages,
                None => self@.machine.memory.find(object) is None,
            },
    {
        self.machine.memory.pages_of(object)
    }

    /// How many of `object`'s pages are resident right now.
    pub fn memory_resident_pages(&self, object: ObjectId) -> (n: usize)
        requires
            self.wf(),
        ensures
            n == match self@.machine.memory.find(object) {
                Some(o) => present(self@.machine.memory.run(o)).len(),
                None => 0,
            },
    {
        self.machine.memory.resident_pages(object)
    }

    /// The object's length in bytes.
    pub fn memory_len_of(&self, object: ObjectId) -> (r: Option<u64>)
        requires
            self.wf(),
        ensures
            match r {
                Some(n) => self@.machine.memory.find(object) matches Some(o) && n == o.pages
                    * crate::config::FRAME_SIZE,
                None => self@.machine.memory.find(object) is None,
            },
    {
        self.machine.memory.len_of(object)
    }

    /// Copies `object`'s frames into `out`, returning how many.
    pub fn memory_frames_of(&self, object: ObjectId, out: &mut [PhysFrame]) -> (n: usize)
        requires
            self.wf(),
        ensures
            match self@.machine.memory.find(object) {
                Some(o) => filled(
                    old(out)@,
                    final(out)@,
                    n as int,
                    present(self@.machine.memory.run(o)),
                ),
                None => n == 0 && final(out)@ == old(out)@,
            },
    {
        self.machine.memory.frames_of(object, out)
    }

    /// Moves `object` to `owner` alone. Answers whether it is a memory object.
    pub fn memory_set_owner(&mut self, object: ObjectId, owner: ObjectId) -> (b: bool)
        requires
            old(self).wf(),
        ensures
            final(self).wf(),
            ({
                let v = old(self)@.machine.memory;
                match v.find(object) {
                    Some(o) => {
                        &&& b
                        &&& final(self)@ == old(self)@.with_memory(
                            v.with(object, MemoryObjectView { holders: seq![owner], ..o }),
                        )
                    },
                    None => !b && final(self)@ == old(self)@,
                }
            }),
    {
        let b = self.machine.memory.set_sole_holder(object, owner);
        assert(self@ =~= old(self)@.with_memory(self.machine.memory@));
        b
    }

    /// Puts `object` on a handling path, and refuses to take it off one.
    pub fn memory_classify(&mut self, object: ObjectId, class: MemoryClass) -> (r: Result<
        (),
        KError,
    >)
        requires
            old(self).wf(),
        ensures
            final(self).wf(),
            ({
                let v = old(self)@.machine.memory;
                match v.find(object) {
                    None => r == Err::<(), _>(KError::WrongType) && final(self)@ == old(self)@,
                    Some(o) => if strength(class) < strength(o.class) {
                        r == Err::<(), _>(KError::AccessDenied) && final(self)@ == old(self)@
                    } else {
                        &&& r is Ok
                        &&& final(self)@ == old(self)@.with_memory(
                            v.with(object, MemoryObjectView { class, ..o }),
                        )
                    },
                }
            }),
    {
        let r = self.machine.memory.classify(object, class);
        assert(self@ =~= old(self)@.with_memory(self.machine.memory@));
        r
    }

    /// Every object `owner` holds, in `out`; returns how many.
    pub fn memory_objects_owned_by(&self, owner: ObjectId, out: &mut [ObjectId]) -> (n: usize)
        requires
            self.wf(),
        ensures
            filled(
                old(out)@,
                final(out)@,
                n as int,
                listed(self@.machine.memory.objects, held_by(owner)),
            ),
    {
        self.machine.memory.objects_held_by(owner, out)
    }

    /// Records that a device can reach `object`.
    pub fn memory_attach(&mut self, object: ObjectId, attachment: Attachment) -> (r: Result<
        (),
        KError,
    >)
        requires
            old(self).wf(),
        ensures
            final(self).wf(),
            ({
                let v = old(self)@.machine.memory;
                match v.find(object) {
                    None => r == Err::<(), _>(KError::BadHandle) && final(self)@ == old(self)@,
                    Some(o) => if o.attached is Some {
                        r == Err::<(), _>(KError::AlreadyMapped) && final(self)@ == old(self)@
                    } else {
                        &&& r is Ok
                        &&& final(self)@ == old(self)@.with_memory(
                            v.with(
                                object,
                                MemoryObjectView {
                                    attached: Some(attachment),
                                    last_attachment: Some(
                                        (attachment.device, attachment.address),
                                    ),
                                    ..o
                                },
                            ),
                        )
                    },
                }
            }),
    {
        let r = self.machine.memory.attach(object, attachment);
        assert(self@ =~= old(self)@.with_memory(self.machine.memory@));
        r
    }

    /// The address `object` was last attached at on `device`.
    pub fn memory_remembered_address(&self, object: ObjectId, device: ObjectId) -> (r: Option<u64>)
        requires
            self.wf(),
        ensures
            match r {
                Some(a) => self@.machine.memory.find(object) matches Some(o) && o.last_attachment
                    == Some((device, a)),
                None => self@.machine.memory.find(object) matches Some(o) ==> (
                o.last_attachment matches Some(l) ==> l.0 != device),
            },
    {
        self.machine.memory.remembered_address(object, device)
    }

    /// Ends `object`'s attachment: the device's translation goes away and the
    /// record with it. Returns what the attachment was. A translation that
    /// cannot be dropped, because there is no unit to ask or it refused, keeps
    /// its record.
    pub fn detach_memory<M: DmaMapper>(&mut self, object: ObjectId, iommu: &mut M) -> (r: Option<
        Attachment,
    >)
        requires
            old(self).wf(),
        ensures
            final(self).wf(),
            final(iommu).present() == old(iommu).present(),
            exists|ok: bool| #[trigger]
                detach_step(
                    old(self)@.machine.memory,
                    final(self)@.machine.memory,
                    old(iommu).trace(),
                    final(iommu).trace(),
                    old(iommu).present(),
                    object,
                    ok,
                    r,
                ),
            final(self)@ == old(self)@.with_memory(final(self)@.machine.memory),
    {
        let ghost v = self@;
        let ghost before = iommu.trace();
        let ghost present = iommu.present();
        let a: Attachment = match self.machine.memory.attachment_of(object) {
            None => {
                assert(detach_step(
                    v.machine.memory,
                    v.machine.memory,
                    before,
                    before,
                    present,
                    object,
                    true,
                    None,
                ));
                assert(v.with_memory(v.machine.memory) =~= v);
                return None;
            },
            Some(a) => a,
        };
        if a.scoped {
            if !iommu.is_present() {
                assert(detach_step(
                    v.machine.memory,
                    v.machine.memory,
                    before,
                    before,
                    present,
                    object,
                    true,
                    None,
                ));
                assert(v.with_memory(v.machine.memory) =~= v);
                return None;
            }
            if iommu.unmap(a.device, a.address, a.len).is_err() {
                assert(detach_step(
                    v.machine.memory,
                    v.machine.memory,
                    before,
                    iommu.trace(),
                    present,
                    object,
                    false,
                    None,
                ));
                assert(v.with_memory(v.machine.memory) =~= v);
                return None;
            }
        }
        let r = self.machine.memory.detach(object);
        proof {
            assert(self@ =~= v.with_memory(self.machine.memory@));
            assert(detach_step(
                v.machine.memory,
                self@.machine.memory,
                before,
                iommu.trace(),
                present,
                object,
                true,
                r,
            ));
        }
        r
    }

    /// Drops the object's own reference to its frames: what the last handle
    /// closing must do. The object is detached before a single frame moves, and
    /// stays when that cannot be done. Returns how many frames were released.
    pub fn memory_destroy<F: FrameSource, M: DmaMapper>(
        &mut self,
        object: ObjectId,
        alloc: &mut F,
        iommu: &mut M,
    ) -> (n: usize)
        requires
            old(self).wf(),
            old(alloc).inv(),
        ensures
            final(self).wf(),
            final(alloc).inv(),
            final(iommu).present() == old(iommu).present(),
            final(self)@ == old(self)@.with_memory(final(self)@.machine.memory),
            exists|ok: bool, ops: Seq<FrameOp>| #[trigger]
                destroy_step(
                    old(self)@.machine.memory,
                    final(self)@.machine.memory,
                    old(iommu).trace(),
                    final(iommu).trace(),
                    old(iommu).present(),
                    Seq::empty(),
                    ops,
                    object,
                    ok,
                    n as int,
                ) && asked(*old(alloc), *final(alloc), ops),
    {
        let ghost v = self@;
        let ghost before = iommu.trace();
        let ghost present = iommu.present();
        let r = self.detach_memory(object, iommu);
        let ghost w = self@.machine.memory;
        let ghost ok = choose|ok: bool| #[trigger]
            detach_step(
                v.machine.memory,
                w,
                before,
                iommu.trace(),
                present,
                object,
                ok,
                r,
            );
        let n = self.machine.memory.destroy(object, alloc);
        proof {
            assert(self@ =~= v.with_memory(self.machine.memory@));
            lemma_asked_nothing(*old(alloc));
            let ops = match w.find(object) {
                Some(o) => if o.attached is None {
                    frees(present_frames(w, o))
                } else {
                    Seq::empty()
                },
                None => Seq::empty(),
            };
            assert(Seq::<FrameOp>::empty() + ops =~= ops);
            assert(destroy_step(
                v.machine.memory,
                self@.machine.memory,
                before,
                iommu.trace(),
                present,
                Seq::empty(),
                ops,
                object,
                ok,
                n as int,
            )) by {
                assert(detach_step(
                    v.machine.memory,
                    w,
                    before,
                    iommu.trace(),
                    present,
                    object,
                    ok,
                    r,
                ));
            }
        }
        n
    }

    /// Lets go of every memory object `owner` holds, destroying the ones nobody
    /// else does. Returns how many were destroyed. The exit sweep; the mappings
    /// of the process hold references of their own.
    pub fn release_memory_of<F: FrameSource, M: DmaMapper>(
        &mut self,
        owner: ObjectId,
        alloc: &mut F,
        iommu: &mut M,
    ) -> (n: usize)
        requires
            old(self).wf(),
            old(alloc).inv(),
        ensures
            final(self).wf(),
            final(alloc).inv(),
            final(iommu).present() == old(iommu).present(),
            final(self)@ == old(self)@.with_memory(final(self)@.machine.memory),
            ({
                let list = listed(old(self)@.machine.memory.objects, held_by(owner));
                exists|oks: Seq<bool>, ops: Seq<FrameOp>|
                    oks.len() == list.len() && #[trigger] asked(
                        *old(alloc),
                        *final(alloc),
                        ops,
                    ) && #[trigger] release_steps(
                        ReleaseView {
                            memory: old(self)@.machine.memory,
                            dma: old(iommu).trace(),
                            frames: Seq::empty(),
                            destroyed: 0,
                        },
                        old(iommu).present(),
                        owner,
                        list,
                        oks,
                        list.len() as int,
                    ) == (ReleaseView {
                        memory: final(self)@.machine.memory,
                        dma: final(iommu).trace(),
                        frames: ops,
                        destroyed: n as nat,
                    })
            }),
    {
        let ghost v = self@;
        let ghost list = listed(v.machine.memory.objects, held_by(owner));
        let ghost start = ReleaseView {
            memory: v.machine.memory,
            dma: iommu.trace(),
            frames: Seq::empty(),
            destroyed: 0,
        };
        let ghost present = iommu.present();
        let mut owned: Vec<ObjectId> = vec![ObjectId(0); MAX_MEMORY_OBJECTS];
        let ghost blank = owned@;
        let found: usize = self.machine.memory.objects_held_by(owner, owned.as_mut_slice());
        proof {
            crate::memory::lemma_listed_fits(v.machine.memory.objects, held_by(owner));
            assert forall|k: int| 0 <= k < found implies #[trigger] owned@[k] == list[k] by {
                assert(list.take(found as int)[k] == list[k]);
            }
            assert(v.with_memory(v.machine.memory) =~= v);
        }
        let mut n: usize = 0;
        let mut i: usize = 0;
        let ghost mut oks: Seq<bool> = Seq::empty();
        let ghost mut ops: Seq<FrameOp> = Seq::empty();
        proof {
            lemma_asked_nothing(*alloc);
        }
        while i < found
            invariant
                self.wf(),
                alloc.inv(),
                found == list.len(),
                owned@.len() == MAX_MEMORY_OBJECTS,
                found <= MAX_MEMORY_OBJECTS,
                i <= found,
                n <= i,
                forall|k: int| 0 <= k < found ==> #[trigger] owned@[k] == list[k],
                iommu.present() == present,
                oks.len() == i,
                self@ == v.with_memory(self@.machine.memory),
                release_steps(start, present, owner, list, oks, i as int) == (ReleaseView {
                    memory: self@.machine.memory,
                    dma: iommu.trace(),
                    frames: ops,
                    destroyed: n as nat,
                }),
                asked(*old(alloc), *alloc, ops),
            decreases found - i,
        {
            let object = owned[i];
            let ghost w = self@;
            let ghost was = oks;
            let ghost before = ReleaseView {
                memory: w.machine.memory,
                dma: iommu.trace(),
                frames: ops,
                destroyed: n as nat,
            };
            assert(object == list[i as int]);
            let held: bool = self.machine.memory.remove_holder(object, owner);
            let ghost m = self@.machine.memory;
            assert(self@ =~= v.with_memory(m));
            let ghost mut ok = true;
            let ghost mut freed: int = 0;
            if !held {
                let ghost dma = iommu.trace();
                let ghost seen = *alloc;
                let ghost had = ops;
                let known: bool = self.machine.memory.pages_of(object).is_some();
                let released = self.memory_destroy(object, alloc, iommu);
                proof {
                    let (fine, more) = choose|ok: bool, more: Seq<FrameOp>| #[trigger]
                        destroy_step(
                            m,
                            self@.machine.memory,
                            dma,
                            iommu.trace(),
                            present,
                            Seq::empty(),
                            more,
                            object,
                            ok,
                            released as int,
                        ) && asked(seen, *alloc, more);
                    ok = fine;
                    freed = released as int;
                    ops = had + more;
                    lemma_asked(*old(alloc), seen, *alloc, had, more);
                    lemma_destroy_after(
                        m,
                        self@.machine.memory,
                        dma,
                        iommu.trace(),
                        present,
                        had,
                        more,
                        object,
                        ok,
                        freed,
                    );
                    assert(self@ =~= v.with_memory(self@.machine.memory));
                }
                if known && self.machine.memory.pages_of(object).is_none() {
                    n += 1;
                }
            }
            proof {
                oks = was.push(ok);
                lemma_release_prefix(start, present, owner, list, was, oks, i as int);
                let after = ReleaseView {
                    memory: self@.machine.memory,
                    dma: iommu.trace(),
                    frames: ops,
                    destroyed: n as nat,
                };
                lemma_release_one(before, m, after, present, owner, object, held, ok, freed);
            }
            i += 1;
        }
        n
    }
}

/// What ending an attachment comes to, where `ok` says whether the unit, if it
/// was asked, dropped the translation.
pub open spec fn detach_step(
    v: MemoryView,
    w: MemoryView,
    dma: Seq<DmaOp>,
    dma_after: Seq<DmaOp>,
    present: bool,
    object: ObjectId,
    ok: bool,
    r: Option<Attachment>,
) -> bool {
    match v.find(object) {
        None => w == v && dma_after == dma && r is None,
        Some(o) => match o.attached {
            None => w == v && dma_after == dma && r is None,
            Some(a) => {
                let asked = dma.push(
                    DmaOp::Unmap { device: a.device, address: a.address, len: a.len, ok },
                );
                if a.scoped && !present {
                    w == v && dma_after == dma && r is None
                } else if a.scoped && !ok {
                    w == v && dma_after == asked && r is None
                } else {
                    &&& w == v.with(object, MemoryObjectView { attached: None, ..o })
                    &&& dma_after == if a.scoped {
                        asked
                    } else {
                        dma
                    }
                    &&& r == Some(a)
                }
            },
        },
    }
}

/// What destroying an object comes to.
pub open spec fn destroy_step(
    v: MemoryView,
    w: MemoryView,
    dma: Seq<DmaOp>,
    dma_after: Seq<DmaOp>,
    present: bool,
    frames: Seq<FrameOp>,
    frames_after: Seq<FrameOp>,
    object: ObjectId,
    ok: bool,
    n: int,
) -> bool {
    exists|d: MemoryView, r: Option<Attachment>|
        {
            &&& #[trigger] detach_step(v, d, dma, dma_after, present, object, ok, r)
            &&& match d.find(object) {
                Some(o) => if o.attached is None {
                    &&& w == d.removed(d.slot(object))
                    &&& frames_after == frames + frees(present_frames(d, o))
                    &&& n == present_frames(d, o).len()
                } else {
                    w == d && frames_after == frames && n == 0
                },
                None => w == d && frames_after == frames && n == 0,
            }
        }
}

/// What destroying an object asks of the frame source comes after what was
/// asked before.
proof fn lemma_destroy_after(
    v: MemoryView,
    w: MemoryView,
    dma: Seq<DmaOp>,
    dma_after: Seq<DmaOp>,
    present: bool,
    before: Seq<FrameOp>,
    ops: Seq<FrameOp>,
    object: ObjectId,
    ok: bool,
    n: int,
)
    requires
        destroy_step(v, w, dma, dma_after, present, Seq::empty(), ops, object, ok, n),
    ensures
        destroy_step(v, w, dma, dma_after, present, before, before + ops, object, ok, n),
{
    let (d, r) = choose|d: MemoryView, r: Option<Attachment>|
        {
            &&& #[trigger] detach_step(v, d, dma, dma_after, present, object, ok, r)
            &&& match d.find(object) {
                Some(o) => if o.attached is None {
                    &&& w == d.removed(d.slot(object))
                    &&& ops == Seq::<FrameOp>::empty() + frees(present_frames(d, o))
                    &&& n == present_frames(d, o).len()
                } else {
                    w == d && ops == Seq::<FrameOp>::empty() && n == 0
                },
                None => w == d && ops == Seq::<FrameOp>::empty() && n == 0,
            }
        };
    assert(detach_step(v, d, dma, dma_after, present, object, ok, r));
    assert(before + Seq::<FrameOp>::empty() =~= before);
    if let Some(o) = d.find(object) {
        let freed = frees(present_frames(d, o));
        assert(Seq::<FrameOp>::empty() + freed =~= freed);
    }
}

/// The frames an object holds.
pub open spec fn present_frames(v: MemoryView, o: MemoryObjectView) -> Seq<PhysFrame> {
    present(v.run(o))
}

/// What a release sweep changes.
#[verifier::ext_equal]
pub struct ReleaseView {
    pub memory: MemoryView,
    pub dma: Seq<DmaOp>,
    pub frames: Seq<FrameOp>,
    pub destroyed: nat,
}

/// The sweep after `owner` lets go of one object, where `ok` says whether the
/// unit dropped its translation, if it had to: destroyed if nobody else holds
/// it and no device can reach it.
pub open spec fn release_one(
    s: ReleaseView,
    present: bool,
    owner: ObjectId,
    object: ObjectId,
    ok: bool,
) -> ReleaseView {
    match s.memory.find(object) {
        None => s,
        Some(o) => {
            let left = o.holders.filter(other_than(owner));
            let m = s.memory.with(object, MemoryObjectView { holders: left, ..o });
            let keeps = o.attached matches Some(a) && a.scoped && (!present || !ok);
            let asked = o.attached matches Some(a) && a.scoped && present;
            if left.len() > 0 {
                ReleaseView { memory: m, ..s }
            } else {
                let d = if keeps {
                    m
                } else {
                    m.with(
                        object,
                        MemoryObjectView { holders: left, attached: None, ..o },
                    )
                };
                let a = o.attached->0;
                let dma = if asked {
                    s.dma.push(
                        DmaOp::Unmap { device: a.device, address: a.address, len: a.len, ok },
                    )
                } else {
                    s.dma
                };
                if keeps {
                    ReleaseView { memory: d, dma, ..s }
                } else {
                    ReleaseView {
                        memory: d.removed(d.slot(object)),
                        dma,
                        frames: s.frames + frees(present_frames(s.memory, o)),
                        destroyed: s.destroyed + 1,
                    }
                }
            }
        },
    }
}

/// The sweep after the first `n` objects of `list`.
pub open spec fn release_steps(
    s: ReleaseView,
    present: bool,
    owner: ObjectId,
    list: Seq<ObjectId>,
    oks: Seq<bool>,
    n: int,
) -> ReleaseView
    decreases n,
{
    if n <= 0 {
        s
    } else {
        release_one(
            release_steps(s, present, owner, list, oks, n - 1),
            present,
            owner,
            list[n - 1],
            oks[n - 1],
        )
    }
}

/// Letting go of an object and destroying it if that was the last hold is
/// [`release_one`].
proof fn lemma_release_one(
    s: ReleaseView,
    m: MemoryView,
    t: ReleaseView,
    present: bool,
    owner: ObjectId,
    object: ObjectId,
    held: bool,
    ok: bool,
    freed: int,
)
    requires
        s.memory.wf(),
        match s.memory.find(object) {
            None => !held && m == s.memory,
            Some(o) => {
                let left = o.holders.filter(other_than(owner));
                &&& held == (left.len() > 0)
                &&& m == s.memory.with(object, MemoryObjectView { holders: left, ..o })
            },
        },
        if held {
            t == (ReleaseView { memory: m, ..s })
        } else {
            &&& destroy_step(
                m,
                t.memory,
                s.dma,
                t.dma,
                present,
                s.frames,
                t.frames,
                object,
                ok,
                freed,
            )
            &&& t.destroyed == s.destroyed + if m.find(object) is Some && t.memory.find(object) is None {
                1nat
            } else {
                0nat
            }
        },
    ensures
        release_one(s, present, owner, object, ok) == t,
{
    let v = s.memory;
    slots::lemma_first(v.objects, named(object));
    if v.find(object) is Some && !held {
        let i = v.slot(object);
        let o = v.find(object)->0;
        let left = o.holders.filter(other_than(owner));
        let (d, r) = choose|d: MemoryView, r: Option<Attachment>|
            {
                &&& #[trigger] detach_step(m, d, s.dma, t.dma, present, object, ok, r)
                &&& match d.find(object) {
                    Some(o) => if o.attached is None {
                        &&& t.memory == d.removed(d.slot(object))
                        &&& t.frames == s.frames + frees(present_frames(d, o))
                        &&& freed == present_frames(d, o).len()
                    } else {
                        t.memory == d && t.frames == s.frames && freed == 0
                    },
                    None => t.memory == d && t.frames == s.frames && freed == 0,
                }
            };
        slots::lemma_first_is(m.objects, named(object), i);
        assert(m.find(object) == Some(MemoryObjectView { holders: left, ..o }));
        slots::lemma_first_is(d.objects, named(object), i);
        if d.find(object)->0.attached is None {
            let w = d.removed(i);
            assert(w.find(object) is None) by {
                slots::lemma_first(w.objects, named(object));
                if w.find(object) is Some {
                    let j = w.slot(object);
                    assert(v.objects[j] is Some && v.objects[i] is Some);
                    if i < j {
                        assert(apart(v.objects[i]->0, v.objects[j]->0));
                    } else {
                        assert(apart(v.objects[j]->0, v.objects[i]->0));
                    }
                }
            }
        }
        let kept = MemoryObjectView { holders: left, attached: None, ..o };
        if o.attached is None {
            assert(m.with(object, kept) =~= m);
        }
    }
}

proof fn lemma_release_prefix(
    s: ReleaseView,
    present: bool,
    owner: ObjectId,
    list: Seq<ObjectId>,
    a: Seq<bool>,
    b: Seq<bool>,
    n: int,
)
    requires
        0 <= n <= a.len(),
        n <= b.len(),
        forall|i: int| 0 <= i < n ==> a[i] == b[i],
    ensures
        release_steps(s, present, owner, list, a, n) == release_steps(
            s,
            present,
            owner,
            list,
            b,
            n,
        ),
    decreases n,
{
    if n > 0 {
        lemma_release_prefix(s, present, owner, list, a, b, n - 1);
    }
}

/// Detaching ends the one attachment of the object, after the device's
/// translation is dropped where there is one to drop: the address and the length
/// that were attached are what is unmapped, and if that fails, or nobody can do
/// it, the object stays attached.
pub proof fn law_a_detach_drops_the_translation_first(
    v: MemoryView,
    w: MemoryView,
    dma: Seq<DmaOp>,
    dma_after: Seq<DmaOp>,
    present: bool,
    object: ObjectId,
    ok: bool,
    r: Option<Attachment>,
    other: ObjectId,
)
    requires
        v.wf(),
        other != object,
        detach_step(v, w, dma, dma_after, present, object, ok, r),
    ensures
        w.find(other) == v.find(other),
        w.slots == v.slots,
        v.find(object) is None ==> r is None && dma_after == dma,
        v.find(object) matches Some(o) ==> {
            &&& o.attached is None ==> r is None && dma_after == dma && w == v
            &&& o.attached matches Some(a) ==> {
                &&& a.scoped && present ==> dma_after.len() == dma.len() + 1 && (
                dma_after.last() matches DmaOp::Unmap { device, address, len, ok: done } && device
                    == a.device && address == a.address && len == a.len && done == ok)
                &&& !(a.scoped && present) ==> dma_after == dma
                &&& a.scoped && (!present || !ok) ==> r is None && w == v
                &&& !a.scoped || (present && ok) ==> r == Some(a) && (w.find(object) matches Some(p)
                    && p.attached is None && p.holders == o.holders && p.class == o.class
                    && p.cache == o.cache && p.last_attachment == o.last_attachment)
            }
        },
{
    crate::memory::law_a_memory_object_is_found_by_its_id(v, object);
    if let Some(o) = v.find(object) {
        crate::memory::law_a_changed_object_is_the_only_one(
            v,
            object,
            MemoryObjectView { attached: None, ..o },
            other,
        );
    }
}

/// An owner that goes lets go of the object. While another holds it the object
/// stays, held by the others alone. When nobody does, it is destroyed and every
/// frame of it is freed, unless its device still reaches it: then it stays, and
/// so do its frames.
pub proof fn law_an_object_outlives_its_owner_only_if_held(
    s: ReleaseView,
    present: bool,
    owner: ObjectId,
    object: ObjectId,
    ok: bool,
    other: ObjectId,
)
    requires
        s.memory.wf(),
        other != object,
    ensures
        ({
            let e = release_one(s, present, owner, object, ok);
            match s.memory.find(object) {
                None => e == s,
                Some(o) => {
                    let held = exists|k: int|
                        0 <= k < o.holders.len() && #[trigger] o.holders[k] != owner;
                    let reached = o.attached matches Some(a) && a.scoped && (!present || !ok);
                    &&& held ==> {
                        &&& e.memory.find(object) matches Some(p)
                        &&& !p.holders.contains(owner)
                        &&& forall|h: ObjectId|
                            h != owner ==> (#[trigger] p.holders.contains(h) == o.holders.contains(
                                h,
                            ))
                        &&& p.attached == o.attached && p.class == o.class
                        &&& e.frames == s.frames && e.dma == s.dma && e.destroyed == s.destroyed
                        &&& e.memory.slots == s.memory.slots
                    }
                    &&& !held && reached ==> {
                        &&& e.memory.find(object) matches Some(p)
                        &&& p.attached == o.attached && p.holders.len() == 0
                        &&& e.frames == s.frames && e.destroyed == s.destroyed
                        &&& e.memory.slots == s.memory.slots
                    }
                    &&& !held && !reached ==> {
                        &&& e.memory.find(object) is None
                        &&& e.destroyed == s.destroyed + 1
                        &&& e.frames == s.frames + frees(present_frames(s.memory, o))
                    }
                    &&& !held ==> (o.attached matches Some(a) ==> (a.scoped && present ==> (
                    e.dma.len() == s.dma.len() + 1 && e.dma.last() == DmaOp::Unmap {
                        device: a.device,
                        address: a.address,
                        len: a.len,
                        ok,
                    })))
                    &&& e.memory.find(other) == s.memory.find(other)
                },
            }
        }),
{
    let v = s.memory;
    crate::memory::law_a_memory_object_is_found_by_its_id(v, object);
    if let Some(o) = v.find(object) {
        let p = other_than(owner);
        let left = o.holders.filter(p);
        if exists|k: int| 0 <= k < o.holders.len() && #[trigger] o.holders[k] != owner {
            let k = choose|k: int| 0 <= k < o.holders.len() && #[trigger] o.holders[k] != owner;
            assert(p(o.holders[k]));
            o.holders.lemma_filter_contains(p, k);
        }
        if left.len() > 0 {
            o.holders.lemma_filter_pred(p, 0);
            assert(left.contains(left[0]));
            o.holders.lemma_filter_contains_rev(p, left[0]);
            let k = choose|k: int| 0 <= k < o.holders.len() && o.holders[k] == left[0];
            assert(o.holders[k] != owner);
        }
        if left.contains(owner) {
            let k = choose|k: int| 0 <= k < left.len() && left[k] == owner;
            o.holders.lemma_filter_pred(p, k);
        }
        assert forall|h: ObjectId| h != owner implies #[trigger] left.contains(h)
            == o.holders.contains(h) by {
            if left.contains(h) {
                o.holders.lemma_filter_contains_rev(p, h);
            }
            if o.holders.contains(h) {
                let k = choose|k: int| 0 <= k < o.holders.len() && o.holders[k] == h;
                o.holders.lemma_filter_contains(p, k);
            }
        }
        let q = MemoryObjectView { holders: left, ..o };
        crate::memory::law_a_changed_object_is_the_only_one(v, object, q, other);
        let m = v.with(object, q);
        let i = v.slot(object);
        let n = MemoryObjectView { holders: left, attached: None, ..o };
        let d = m.with(object, n);
        slots::lemma_first(v.objects, named(object));
        slots::lemma_first(v.objects, named(other));
        assert forall|k: int| 0 <= k < i implies !named(object)(#[trigger] m.objects[k]) by {
            assert(!named(object)(v.objects[k]));
        }
        slots::lemma_first_is(m.objects, named(object), i);
        assert(d.objects =~= v.objects.update(i, Some(n)));
        assert forall|k: int| 0 <= k < i implies !named(object)(#[trigger] d.objects[k]) by {
            assert(!named(object)(v.objects[k]));
        }
        slots::lemma_first_is(d.objects, named(object), i);
        let e = d.removed(i);
        assert(e.objects =~= v.objects.update(i, None));
        assert forall|k: int| 0 <= k < e.objects.len() implies !named(object)(
            #[trigger] e.objects[k],
        ) by {
            if k != i && named(object)(v.objects[k]) {
                assert(v.objects[k] is Some && v.objects[i] is Some);
                if k < i {
                    assert(apart(v.objects[k]->0, v.objects[i]->0));
                } else {
                    assert(apart(v.objects[i]->0, v.objects[k]->0));
                }
            }
        }
        slots::lemma_first_is(e.objects, named(object), e.objects.len() as int);
        let j = v.slot(other);
        assert forall|k: int| 0 <= k < j implies !named(other)(#[trigger] e.objects[k]) by {
            assert(!named(other)(v.objects[k]));
        }
        slots::lemma_first_is(e.objects, named(other), j);
    }
}

/// A destroyed object is gone with its frames, and one that its device still
/// reaches is not destroyed.
pub proof fn law_a_reached_object_is_not_destroyed(
    v: MemoryView,
    w: MemoryView,
    dma: Seq<DmaOp>,
    dma_after: Seq<DmaOp>,
    present: bool,
    frames: Seq<FrameOp>,
    frames_after: Seq<FrameOp>,
    object: ObjectId,
    ok: bool,
    n: int,
)
    requires
        v.wf(),
        destroy_step(
            v,
            w,
            dma,
            dma_after,
            present,
            frames,
            frames_after,
            object,
            ok,
            n,
        ),
    ensures
        v.find(object) is None ==> w == v && frames_after == frames && n == 0,
        v.find(object) matches Some(o) ==> {
            let reached = o.attached matches Some(a) && a.scoped && (!present || !ok);
            &&& reached ==> w == v && frames_after == frames && n == 0
            &&& !reached ==> w.objects == v.objects.update(v.slot(object), None) && n
                == present_frames(v, o).len() && frames_after == frames + frees(
                present_frames(v, o),
            )
        },
{
    crate::memory::law_a_memory_object_is_found_by_its_id(v, object);
    let (d, r) = choose|d: MemoryView, r: Option<Attachment>|
        {
            &&& #[trigger] detach_step(v, d, dma, dma_after, present, object, ok, r)
            &&& match d.find(object) {
                Some(o) => if o.attached is None {
                    &&& w == d.removed(d.slot(object))
                    &&& frames_after == frames + frees(present_frames(d, o))
                    &&& n == present_frames(d, o).len()
                } else {
                    w == d && frames_after == frames && n == 0
                },
                None => w == d && frames_after == frames && n == 0,
            }
        };
    if let Some(o) = v.find(object) {
        let i = v.slot(object);
        let q = MemoryObjectView { attached: None, ..o };
        let other = ObjectId(if object.0 == 0 {
            1
        } else {
            0
        });
        crate::memory::law_a_changed_object_is_the_only_one(v, object, q, other);
        slots::lemma_first(v.objects, named(object));
        assert forall|k: int| 0 <= k < i implies !named(object)(
            #[trigger] v.with(object, q).objects[k],
        ) by {
            assert(!named(object)(v.objects[k]));
        }
        slots::lemma_first_is(v.with(object, q).objects, named(object), i);
        assert(d == v || d == v.with(object, q));
        assert(d.objects.update(i, None) =~= v.objects.update(i, None));
    }
}

/// An owner lets go of every object in the list, one after the other.
pub proof fn law_an_owner_lets_go_of_each(
    s: ReleaseView,
    present: bool,
    owner: ObjectId,
    list: Seq<ObjectId>,
    oks: Seq<bool>,
    n: int,
)
    requires
        n > 0,
    ensures
        release_steps(s, present, owner, list, oks, n) == release_one(
            release_steps(s, present, owner, list, oks, n - 1),
            present,
            owner,
            list[n - 1],
            oks[n - 1],
        ),
        release_steps(s, present, owner, list, oks, 0) == s,
{
}

} // verus!
