//! Memory objects: ranges of pages over a shared pool of frame slots. An object
//! names a contiguous run of slots and costs what it uses; a kernel-backed
//! object's frames are drawn when it is made, a service-backed one's arrive
//! from its pager one at a time.
use vstd::prelude::*;
use crate::config::{FRAME_SIZE, MAX_FRAME_SLOTS, MAX_MEMORY_OBJECTS, MAX_OBJECT_PAGES};
use crate::error::KError;
use crate::frame::{
    asked, draws, dry_after, frees, hands_out, lemma_asked, lemma_asked_nothing, lemma_hands_out,
    FrameMemory, FrameOp, FrameSource, PhysFrame,
};
use crate::object::ObjectId;
use crate::pmem::RECLAIM_REFUSED_STILL_ATTACHED;
use crate::pager::{dirty, CacheView, DirtyOutcome, ObjectCache};
use crate::rights::{subset, Rights};
use crate::slots;

verus! {

/// Where memory-object ids start: above anything the object table issues in
/// its first generation.
pub const MEMORY_OBJECT_ID_BASE: u32 = 0x1000;

/// How many processes may hold one memory object at once.
pub const MAX_HOLDERS: usize = 4;

/// Where a memory object has to be. Every field is binding: satisfied at
/// allocation, or the create fails.
#[derive(Clone, Copy, PartialEq, Eq, Debug, Structural)]
pub struct Placement {
    /// The object must appear contiguous to the device. A constraint on the
    /// mapping, not on the memory.
    pub device_contiguous: bool,
    /// The object must be a run of physical memory.
    pub physically_contiguous: bool,
    /// The boundary the object must start on, or zero for none.
    pub alignment: u64,
    /// The highest address the object may occupy, or zero for no limit.
    pub address_limit: u64,
}

/// No constraint at all.
pub open spec fn anywhere() -> Placement {
    Placement {
        device_contiguous: false,
        physically_contiguous: false,
        alignment: 0,
        address_limit: 0,
    }
}

impl Default for Placement {
    fn default() -> (p: Placement)
        ensures
            p == anywhere(),
    {
        Placement {
            device_contiguous: false,
            physically_contiguous: false,
            alignment: 0,
            address_limit: 0,
        }
    }
}

/// Whether `frames`, in the order they will be handed out, is where `p` says
/// the object has to be. `device_contiguous` asks nothing here: the broker lays
/// scattered pages out at consecutive device addresses.
pub open spec fn satisfies(p: Placement, frames: Seq<Option<PhysFrame>>) -> bool {
    &&& frames.len() > 0
    &&& frames[0] is Some
    &&& p.alignment != 0 ==> base_of(frames[0]) % p.alignment as int == 0
    &&& p.physically_contiguous ==> forall|i: int|
        0 <= i < frames.len() ==> (#[trigger] frames[i]) is Some && base_of(frames[i]) == base_of(
            frames[0],
        ) + i * FRAME_SIZE
    &&& p.address_limit != 0 ==> forall|i: int|
        0 <= i < frames.len() && (#[trigger] frames[i]) is Some ==> base_of(frames[i]) + FRAME_SIZE
            - 1 <= p.address_limit
}

/// The address an optional frame starts at.
pub open spec fn base_of(f: Option<PhysFrame>) -> int {
    match f {
        Some(f) => f.0 as int,
        None => -1,
    }
}

impl Placement {
    /// Whether `frames` is where the request said the object had to be;
    /// [`KError::OutOfMemory`] when it is not.
    pub fn satisfied_by(&self, frames: &[Option<PhysFrame>]) -> (r: Result<(), KError>)
        ensures
            match r {
                Ok(_) => satisfies(*self, frames@),
                Err(e) => e == KError::OutOfMemory && !satisfies(*self, frames@),
            },
    {
        if frames.len() == 0 {
            return Err(KError::OutOfMemory);
        }
        let base: u64 = match frames[0] {
            Some(f) => f.base(),
            None => {
                return Err(KError::OutOfMemory);
            },
        };
        if self.alignment != 0 && base % self.alignment != 0 {
            return Err(KError::OutOfMemory);
        }
        let mut page: usize = 0;
        while page < frames.len()
            invariant
                page <= frames@.len(),
                frames@.len() > 0,
                base_of(frames@[0]) == base,
                self.physically_contiguous ==> forall|i: int|
                    0 <= i < page ==> (#[trigger] frames@[i]) is Some && base_of(frames@[i])
                        == base_of(frames@[0]) + i * FRAME_SIZE,
                self.address_limit != 0 ==> forall|i: int|
                    0 <= i < page && (#[trigger] frames@[i]) is Some ==> base_of(frames@[i])
                        + FRAME_SIZE - 1 <= self.address_limit,
            decreases frames@.len() - page,
        {
            match frames[page] {
                None => {
                    if self.physically_contiguous {
                        return Err(KError::OutOfMemory);
                    }
                },
                Some(frame) => {
                    let at: u64 = frame.base();
                    assert(base_of(frames@[page as int]) == at);
                    if self.physically_contiguous && (at < base || (at - base) as u128
                        != page as u128 * FRAME_SIZE as u128) {
                        return Err(KError::OutOfMemory);
                    }
                    // The last byte, not the base: a frame that starts below a
                    // limit and ends above it is still out of reach.
                    if self.address_limit != 0 && (at > self.address_limit || self.address_limit
                        - at < FRAME_SIZE - 1) {
                        return Err(KError::OutOfMemory);
                    }
                },
            }
            page += 1;
        }
        Ok(())
    }
}

/// The handling path memory is on. A later variant is stronger.
#[derive(Clone, Copy, PartialEq, Eq, Debug, Structural)]
pub enum MemoryClass {
    Unclassified,
    Protected,
}

/// How strong a class is.
pub open spec fn strength(class: MemoryClass) -> nat {
    match class {
        MemoryClass::Unclassified => 0,
        MemoryClass::Protected => 1,
    }
}

/// Whether memory on `class` may be made reachable by a device whose
/// capability carries `device_rights`.
pub fn attach_permitted(class: MemoryClass, device_rights: Rights) -> (b: bool)
    ensures
        b == (class == MemoryClass::Protected ==> subset(Rights::PROTECTED_DMA, device_rights@)),
{
    match class {
        MemoryClass::Unclassified => true,
        MemoryClass::Protected => device_rights.contains(Rights::from_bits(Rights::PROTECTED_DMA)),
    }
}

/// Where a device can reach an object, and how.
#[derive(Clone, Copy, PartialEq, Eq, Debug, Structural)]
pub struct Attachment {
    /// The device that can reach it.
    pub device: ObjectId,
    /// The address the device uses: inside the device's lease when `scoped`, a
    /// physical address otherwise.
    pub address: u64,
    /// How many bytes are reachable from `address`.
    pub len: u64,
    /// Whether an IOMMU translates this.
    pub scoped: bool,
}

/// One memory object.
pub struct MemoryObject {
    object: ObjectId,
    /// The processes that hold this object, oldest first, each once.
    holders: Vec<ObjectId>,
    /// Where this object's run of frame slots begins, and how long it is.
    base: usize,
    pages: usize,
    class: MemoryClass,
    /// Where this object had to be, as its creator stated it.
    placement: Placement,
    /// The device this object is currently reachable by, if any.
    attached: Option<Attachment>,
    /// The device and address this object was last attached at, so attaching
    /// it to the same device again reuses the same address.
    last_attachment: Option<(ObjectId, u64)>,
    /// The pager this object's pages come from, if it has one.
    pager: Option<ObjectId>,
    /// The process that answers for this object's contents.
    served_by: Option<ObjectId>,
    /// Whether this object's pager has failed to answer for it.
    faulted: bool,
    /// Which resident pages have been written since they were supplied.
    cache: ObjectCache,
}

/// What a [`MemoryObject`] holds.
#[verifier::ext_equal]
pub struct MemoryObjectView {
    pub object: ObjectId,
    pub holders: Seq<ObjectId>,
    pub base: int,
    pub pages: int,
    pub class: MemoryClass,
    pub placement: Placement,
    pub attached: Option<Attachment>,
    pub last_attachment: Option<(ObjectId, u64)>,
    pub pager: Option<ObjectId>,
    pub served_by: Option<ObjectId>,
    pub faulted: bool,
    pub cache: CacheView,
}

/// Dirty pages one object may hold before its writers are throttled: half its
/// pages.
pub const DIRTY_LIMIT: u32 = 128;

impl MemoryObjectView {
    /// A kernel-backed object nobody has touched.
    pub open spec fn backed(
        object: ObjectId,
        owner: ObjectId,
        base: int,
        pages: int,
        placement: Placement,
    ) -> MemoryObjectView {
        MemoryObjectView {
            object,
            holders: seq![owner],
            base,
            pages,
            class: MemoryClass::Unclassified,
            placement,
            attached: None,
            last_attachment: None,
            pager: None,
            served_by: None,
            faulted: false,
            cache: CacheView::fresh(DIRTY_LIMIT),
        }
    }

    /// A service-backed object nobody has touched: its creator serves it.
    pub open spec fn paged(
        object: ObjectId,
        owner: ObjectId,
        base: int,
        pages: int,
        pager: ObjectId,
    ) -> MemoryObjectView {
        MemoryObjectView {
            pager: Some(pager),
            served_by: Some(owner),
            ..MemoryObjectView::backed(object, owner, base, pages, anywhere())
        }
    }

    /// The object on its own is sound.
    pub open spec fn wf(self) -> bool {
        &&& 1 <= self.pages <= MAX_OBJECT_PAGES
        &&& 0 <= self.base
        &&& self.base + self.pages <= MAX_FRAME_SLOTS
        &&& self.holders.len() <= MAX_HOLDERS
        &&& self.holders.no_duplicates()
        &&& self.cache.wf()
    }

    /// Whether slot `s` is in the object's run.
    pub open spec fn covers(self, s: int) -> bool {
        self.base <= s < self.base + self.pages
    }
}

impl View for MemoryObject {
    type V = MemoryObjectView;

    closed spec fn view(&self) -> MemoryObjectView {
        MemoryObjectView {
            object: self.object,
            holders: self.holders@,
            base: self.base as int,
            pages: self.pages as int,
            class: self.class,
            placement: self.placement,
            attached: self.attached,
            last_attachment: self.last_attachment,
            pager: self.pager,
            served_by: self.served_by,
            faulted: self.faulted,
            cache: self.cache@,
        }
    }
}

/// A fixed pool of memory objects, over a shared pool of frame slots.
pub struct MemoryTable {
    objects: Vec<Option<MemoryObject>>,
    /// Every object's frames. A slot inside a live run holds `None` until its
    /// page is supplied, so a slot's contents cannot say whether it is taken.
    slots: Vec<Option<PhysFrame>>,
    /// Which slots belong to a live run.
    taken: Vec<bool>,
    /// The next id to mint. Never reused.
    next_id: u32,
}

/// What a [`MemoryTable`] holds.
#[verifier::ext_equal]
pub struct MemoryView {
    pub objects: Seq<Option<MemoryObjectView>>,
    pub slots: Seq<Option<PhysFrame>>,
    pub taken: Seq<bool>,
    pub next_id: u32,
}

/// The view of an optional memory object.
pub open spec fn memory_view(o: Option<MemoryObject>) -> Option<MemoryObjectView> {
    match o {
        Some(o) => Some(o@),
        None => None,
    }
}

/// The predicate of the entry of `object`.
pub open spec fn named(object: ObjectId) -> spec_fn(Option<MemoryObjectView>) -> bool {
    |o: Option<MemoryObjectView>| o matches Some(e) && e.object == object
}

/// Whether a run of `pages` free slots starts at `at`.
pub open spec fn fits(taken: Seq<bool>, pages: int, at: int) -> bool {
    &&& at + pages <= taken.len()
    &&& forall|i: int| at <= i < at + pages ==> !#[trigger] taken[i]
}

/// The lowest place at or after `at` where a run of `pages` slots fits, or
/// `None`.
pub open spec fn fit_from(taken: Seq<bool>, pages: int, at: int) -> Option<int>
    decreases taken.len() - at,
{
    if at >= taken.len() {
        None
    } else if fits(taken, pages, at) {
        Some(at)
    } else {
        fit_from(taken, pages, at + 1)
    }
}

/// First fit.
pub open spec fn first_fit(taken: Seq<bool>, pages: int) -> Option<int> {
    fit_from(taken, pages, 0)
}

/// `taken` with the run from `base` of length `pages` set to `to`.
pub open spec fn with_run(taken: Seq<bool>, base: int, pages: int, to: bool) -> Seq<bool> {
    Seq::new(
        taken.len(),
        |i: int|
            if base <= i < base + pages {
                to
            } else {
                taken[i]
            },
    )
}

/// `slots` with the run from `base` replaced by `frames`.
pub open spec fn with_frames(
    slots: Seq<Option<PhysFrame>>,
    base: int,
    frames: Seq<Option<PhysFrame>>,
) -> Seq<Option<PhysFrame>> {
    Seq::new(
        slots.len(),
        |i: int|
            if base <= i < base + frames.len() {
                frames[i - base]
            } else {
                slots[i]
            },
    )
}

/// The frames present in `slots`, in order.
pub open spec fn present(slots: Seq<Option<PhysFrame>>) -> Seq<PhysFrame>
    decreases slots.len(),
{
    if slots.len() == 0 {
        Seq::empty()
    } else {
        match slots.last() {
            Some(f) => present(slots.drop_last()).push(f),
            None => present(slots.drop_last()),
        }
    }
}

/// The ids of the objects that satisfy `p`, in table order.
pub open spec fn listed(
    objects: Seq<Option<MemoryObjectView>>,
    p: spec_fn(MemoryObjectView) -> bool,
) -> Seq<ObjectId>
    decreases objects.len(),
{
    if objects.len() == 0 {
        Seq::empty()
    } else {
        match objects.last() {
            Some(o) => if p(o) {
                listed(objects.drop_last(), p).push(o.object)
            } else {
                listed(objects.drop_last(), p)
            },
            None => listed(objects.drop_last(), p),
        }
    }
}

/// `out` starts with as much of `list` as it has room for, `n` entries, and is
/// otherwise as `before`.
pub open spec fn filled<T>(before: Seq<T>, out: Seq<T>, n: int, list: Seq<T>) -> bool {
    &&& n == if list.len() <= before.len() {
        list.len() as int
    } else {
        before.len() as int
    }
    &&& out == list.take(n) + before.skip(n)
}

/// The predicate of an object `holder` holds.
pub open spec fn held_by(holder: ObjectId) -> spec_fn(MemoryObjectView) -> bool {
    |o: MemoryObjectView| o.holders.contains(holder)
}

/// The predicate of an object reachable by `device`.
pub open spec fn reachable_by(device: ObjectId) -> spec_fn(MemoryObjectView) -> bool {
    |o: MemoryObjectView| o.attached matches Some(a) && a.device == device
}

/// The predicate of an object whose pages may be reclaimed and which has a
/// clean one.
pub open spec fn reclaimable() -> spec_fn(Option<MemoryObjectView>) -> bool {
    |o: Option<MemoryObjectView>|
        o matches Some(e) && e.pager is Some && !e.faulted && slots::any(
            e.cache.pages,
            crate::pager::clean(),
        )
}

/// The predicate of an object whose pages may be reclaimed and which has a
/// dirty one.
pub open spec fn flushable() -> spec_fn(Option<MemoryObjectView>) -> bool {
    |o: Option<MemoryObjectView>|
        o matches Some(e) && e.pager is Some && !e.faulted && slots::any(e.cache.pages, dirty())
}

impl MemoryView {
    /// The table with nothing in it.
    pub open spec fn fresh() -> MemoryView {
        MemoryView {
            objects: slots::empty(MAX_MEMORY_OBJECTS as nat),
            slots: slots::empty(MAX_FRAME_SLOTS as nat),
            taken: Seq::new(MAX_FRAME_SLOTS as nat, |i: int| false),
            next_id: MEMORY_OBJECT_ID_BASE,
        }
    }

    /// The table's invariant: every object is sound and has its own id below
    /// the next one, runs do not overlap, the taken slots are exactly those in
    /// a run, and a free slot holds no frame.
    pub open spec fn wf(self) -> bool {
        &&& self.objects.len() == MAX_MEMORY_OBJECTS
        &&& self.slots.len() == MAX_FRAME_SLOTS
        &&& self.taken.len() == MAX_FRAME_SLOTS
        &&& forall|i: int|
            0 <= i < MAX_MEMORY_OBJECTS ==> ((#[trigger] self.objects[i]) matches Some(o)
                ==> o.wf() && o.object.0 < self.next_id)
        &&& forall|i: int, j: int|
            0 <= i < j < MAX_MEMORY_OBJECTS && (#[trigger] self.objects[i]) is Some && (
            #[trigger] self.objects[j]) is Some ==> apart(self.objects[i]->0, self.objects[j]->0)
        &&& forall|s: int|
            0 <= s < MAX_FRAME_SLOTS ==> (#[trigger] self.taken[s] <==> self.owned_slot(s))
        &&& forall|s: int|
            0 <= s < MAX_FRAME_SLOTS && !#[trigger] self.taken[s] ==> self.slots[s] is None
    }

    /// Whether slot `s` is in some object's run.
    pub open spec fn owned_slot(self, s: int) -> bool {
        exists|i: int|
            0 <= i < self.objects.len() && (#[trigger] self.objects[i]) is Some
                && self.objects[i]->0.covers(s)
    }

    /// Where `object` is in the table, or the capacity.
    pub open spec fn slot(self, object: ObjectId) -> int {
        slots::first(self.objects, named(object))
    }

    /// The memory object `object` names, if it is one.
    pub open spec fn find(self, object: ObjectId) -> Option<MemoryObjectView> {
        if self.slot(object) < self.objects.len() {
            self.objects[self.slot(object)]
        } else {
            None
        }
    }

    /// The first free object slot, or the capacity.
    pub open spec fn vacancy(self) -> int {
        slots::first(self.objects, slots::free::<MemoryObjectView>())
    }

    /// The frames in the run of `o`.
    pub open spec fn run(self, o: MemoryObjectView) -> Seq<Option<PhysFrame>> {
        self.slots.subrange(o.base, o.base + o.pages)
    }

    /// With the entry of `object`, which exists, replaced.
    pub open spec fn with(self, object: ObjectId, o: MemoryObjectView) -> MemoryView {
        MemoryView { objects: self.objects.update(self.slot(object), Some(o)), ..self }
    }

    /// With a new object `o` in the first free slot, its run holding `frames`.
    pub open spec fn added(self, o: MemoryObjectView, frames: Seq<Option<PhysFrame>>) -> MemoryView {
        MemoryView {
            objects: self.objects.update(self.vacancy(), Some(o)),
            slots: with_frames(self.slots, o.base, frames),
            taken: with_run(self.taken, o.base, o.pages, true),
            next_id: (self.next_id + 1) as u32,
        }
    }

    /// Without the object in table slot `i`, its run given back.
    pub open spec fn removed(self, i: int) -> MemoryView {
        let o = self.objects[i]->0;
        MemoryView {
            objects: self.objects.update(i, None),
            slots: with_frames(self.slots, o.base, slots::empty(o.pages as nat)),
            taken: with_run(self.taken, o.base, o.pages, false),
            ..self
        }
    }
}

/// Two objects have different ids and disjoint runs.
pub open spec fn apart(a: MemoryObjectView, b: MemoryObjectView) -> bool {
    &&& a.object != b.object
    &&& a.base + a.pages <= b.base || b.base + b.pages <= a.base
}

impl View for MemoryTable {
    type V = MemoryView;

    closed spec fn view(&self) -> MemoryView {
        MemoryView {
            objects: Seq::new(self.objects@.len(), |i: int| memory_view(self.objects@[i])),
            slots: self.slots@,
            taken: self.taken@,
            next_id: self.next_id,
        }
    }
}

/// Replacing an entry by another state of the same object keeps the table
/// sound.
proof fn lemma_with(v: MemoryView, object: ObjectId, o: MemoryObjectView)
    requires
        v.wf(),
        v.find(object) is Some,
        o.wf(),
        o.object == object,
        o.base == v.find(object)->0.base,
        o.pages == v.find(object)->0.pages,
    ensures
        v.with(object, o).wf(),
        v.with(object, o).slot(object) == v.slot(object),
        v.with(object, o).find(object) == Some(o),
{
    let i = v.slot(object);
    slots::lemma_first(v.objects, named(object));
    let w = v.with(object, o);
    slots::lemma_first_is(w.objects, named(object), i);
    assert forall|a: int, b: int|
        0 <= a < b < MAX_MEMORY_OBJECTS && (#[trigger] w.objects[a]) is Some && (
        #[trigger] w.objects[b]) is Some implies apart(w.objects[a]->0, w.objects[b]->0) by {
        assert(v.objects[a] is Some && v.objects[b] is Some);
        assert(apart(v.objects[a]->0, v.objects[b]->0));
    }
    assert forall|s: int| 0 <= s < MAX_FRAME_SLOTS implies w.owned_slot(s) == v.owned_slot(s) by {
        if v.owned_slot(s) {
            let k = choose|k: int|
                0 <= k < v.objects.len() && (#[trigger] v.objects[k]) is Some
                    && v.objects[k]->0.covers(s);
            assert(w.objects[k] is Some && w.objects[k]->0.covers(s));
        }
        if w.owned_slot(s) {
            let k = choose|k: int|
                0 <= k < w.objects.len() && (#[trigger] w.objects[k]) is Some
                    && w.objects[k]->0.covers(s);
            assert(v.objects[k] is Some && v.objects[k]->0.covers(s));
        }
    }
    assert forall|s: int| 0 <= s < MAX_FRAME_SLOTS implies (#[trigger] w.taken[s]
        <==> w.owned_slot(s)) by {
        assert(v.taken[s] <==> v.owned_slot(s));
    }
}

/// Adding an object whose run was free keeps the table sound.
proof fn lemma_added(v: MemoryView, o: MemoryObjectView, frames: Seq<Option<PhysFrame>>)
    requires
        v.wf(),
        v.vacancy() < MAX_MEMORY_OBJECTS,
        v.next_id < u32::MAX,
        o.wf(),
        o.object.0 == v.next_id,
        frames.len() == o.pages,
        fits(v.taken, o.pages, o.base),
    ensures
        v.added(o, frames).wf(),
{
    let w = v.added(o, frames);
    let at = v.vacancy();
    slots::lemma_first(v.objects, slots::free::<MemoryObjectView>());
    assert(v.objects[at] is None);
    assert forall|a: int|
        0 <= a < MAX_MEMORY_OBJECTS && (#[trigger] v.objects[a]) is Some implies apart(
        v.objects[a]->0,
        o,
    ) by {
        let p = v.objects[a]->0;
        assert(p.wf());
        if !(p.base + p.pages <= o.base || o.base + o.pages <= p.base) {
            let s = if p.base >= o.base {
                p.base
            } else {
                o.base
            };
            assert(p.covers(s));
            assert(v.owned_slot(s));
            assert(v.taken[s]);
        }
    }
    assert forall|a: int, b: int|
        0 <= a < b < MAX_MEMORY_OBJECTS && (#[trigger] w.objects[a]) is Some && (
        #[trigger] w.objects[b]) is Some implies apart(w.objects[a]->0, w.objects[b]->0) by {
        if a != at && b != at {
            assert(v.objects[a] is Some && v.objects[b] is Some);
        } else if a == at {
            assert(v.objects[b] is Some);
        } else {
            assert(v.objects[a] is Some);
        }
    }
    assert forall|s: int| 0 <= s < MAX_FRAME_SLOTS implies (#[trigger] w.taken[s]
        <==> w.owned_slot(s)) by {
        assert(v.taken[s] <==> v.owned_slot(s));
        if o.covers(s) {
            assert(w.objects[at] is Some && w.objects[at]->0.covers(s));
        }
        if v.owned_slot(s) {
            let k = choose|k: int|
                0 <= k < v.objects.len() && (#[trigger] v.objects[k]) is Some
                    && v.objects[k]->0.covers(s);
            assert(w.objects[k] is Some && w.objects[k]->0.covers(s));
        }
        if w.owned_slot(s) && !o.covers(s) {
            let k = choose|k: int|
                0 <= k < w.objects.len() && (#[trigger] w.objects[k]) is Some
                    && w.objects[k]->0.covers(s);
            assert(v.objects[k] is Some && v.objects[k]->0.covers(s));
        }
    }
    assert forall|s: int| 0 <= s < MAX_FRAME_SLOTS && !#[trigger] w.taken[s] implies w.slots[s] is None by {
        assert(!v.taken[s]);
    }
    assert forall|i: int| 0 <= i < MAX_MEMORY_OBJECTS implies ((#[trigger] w.objects[i]) matches Some(
        p,
    ) ==> p.wf() && p.object.0 < w.next_id) by {
        if i != at {
            assert(v.objects[i] matches Some(p) ==> p.wf());
        }
    }
}

/// Removing an object and its run keeps the table sound.
proof fn lemma_removed(v: MemoryView, i: int)
    requires
        v.wf(),
        0 <= i < MAX_MEMORY_OBJECTS,
        v.objects[i] is Some,
    ensures
        v.removed(i).wf(),
{
    let w = v.removed(i);
    let o = v.objects[i]->0;
    assert forall|a: int, b: int|
        0 <= a < b < MAX_MEMORY_OBJECTS && (#[trigger] w.objects[a]) is Some && (
        #[trigger] w.objects[b]) is Some implies apart(w.objects[a]->0, w.objects[b]->0) by {
        assert(v.objects[a] is Some && v.objects[b] is Some);
    }
    assert forall|s: int| 0 <= s < MAX_FRAME_SLOTS implies (#[trigger] w.taken[s]
        <==> w.owned_slot(s)) by {
        assert(v.taken[s] <==> v.owned_slot(s));
        if v.owned_slot(s) && !o.covers(s) {
            let k = choose|k: int|
                0 <= k < v.objects.len() && (#[trigger] v.objects[k]) is Some
                    && v.objects[k]->0.covers(s);
            assert(w.objects[k] is Some && w.objects[k]->0.covers(s));
        }
        if w.owned_slot(s) {
            let k = choose|k: int|
                0 <= k < w.objects.len() && (#[trigger] w.objects[k]) is Some
                    && w.objects[k]->0.covers(s);
            assert(v.objects[k] is Some && v.objects[k]->0.covers(s));
            if o.covers(s) {
                if k < i {
                    assert(apart(v.objects[k]->0, v.objects[i]->0));
                } else {
                    assert(apart(v.objects[i]->0, v.objects[k]->0));
                }
            }
        }
    }
    assert forall|s: int| 0 <= s < MAX_FRAME_SLOTS && !#[trigger] w.taken[s] implies w.slots[s] is None by {
        if !o.covers(s) {
            assert(!v.taken[s]);
        }
    }
}

/// What [`fit_from`] returns.
proof fn lemma_fit_from(taken: Seq<bool>, pages: int, at: int)
    requires
        0 <= at,
        pages >= 1,
    ensures
        match fit_from(taken, pages, at) {
            Some(b) => {
                &&& at <= b < taken.len()
                &&& fits(taken, pages, b)
                &&& forall|c: int| at <= c < b ==> !#[trigger] fits(taken, pages, c)
            },
            None => forall|c: int| at <= c ==> !#[trigger] fits(taken, pages, c),
        },
    decreases taken.len() - at,
{
    if at < taken.len() && !fits(taken, pages, at) {
        lemma_fit_from(taken, pages, at + 1);
    }
}

impl MemoryTable {
    /// The table's invariant.
    pub open spec fn wf(&self) -> bool {
        self@.wf()
    }

    pub fn new() -> (t: MemoryTable)
        ensures
            t.wf(),
            t@ == MemoryView::fresh(),
    {
        let t = MemoryTable {
            objects: slots::empty_slots(MAX_MEMORY_OBJECTS),
            slots: slots::empty_slots(MAX_FRAME_SLOTS),
            taken: vec![false; MAX_FRAME_SLOTS],
            next_id: MEMORY_OBJECT_ID_BASE,
        };
        assert(t@ =~= MemoryView::fresh());
        t
    }

    /// Takes a contiguous run of `pages` slots, first fit, or `None` if the pool
    /// has no run that long.
    fn take_run(&mut self, pages: usize) -> (r: Option<usize>)
        requires
            old(self).wf(),
            1 <= pages <= MAX_OBJECT_PAGES,
        ensures
            match r {
                Some(base) => {
                    &&& first_fit(old(self)@.taken, pages as int) == Some(base as int)
                    &&& fits(old(self)@.taken, pages as int, base as int)
                    &&& final(self)@ == (MemoryView {
                        taken: with_run(old(self)@.taken, base as int, pages as int, true),
                        ..old(self)@
                    })
                },
                None => {
                    &&& first_fit(old(self)@.taken, pages as int) is None
                    &&& final(self)@ == old(self)@
                },
            },
    {
        let ghost taken = self@.taken;
        let ghost before = self@;
        let mut at: usize = 0;
        proof {
            lemma_fit_from(taken, pages as int, 0);
        }
        while at + pages <= MAX_FRAME_SLOTS
            invariant
                self@ == before,
                before == old(self)@,
                before.wf(),
                taken == before.taken,
                1 <= pages <= MAX_OBJECT_PAGES,
                at <= MAX_FRAME_SLOTS,
                forall|c: int| 0 <= c < at ==> !#[trigger] fits(taken, pages as int, c),
            decreases MAX_FRAME_SLOTS - at,
        {
            let mut i: usize = at;
            while i < at + pages && !self.taken[i]
                invariant
                    self@ == before,
                    before.wf(),
                    taken == before.taken,
                    at <= i <= at + pages,
                    at + pages <= MAX_FRAME_SLOTS,
                    forall|k: int| at <= k < i ==> !#[trigger] taken[k],
                decreases at + pages - i,
            {
                i += 1;
            }
            if i == at + pages {
                proof {
                    assert(fits(taken, pages as int, at as int));
                    lemma_fit_from(taken, pages as int, 0);
                    assert(first_fit(taken, pages as int) == Some(at as int));
                }
                let mut k: usize = at;
                while k < at + pages
                    invariant
                        at <= k <= at + pages,
                        at + pages <= MAX_FRAME_SLOTS,
                        before.wf(),
                        fits(before.taken, pages as int, at as int),
                        self.taken@.len() == MAX_FRAME_SLOTS,
                        self.slots@.len() == MAX_FRAME_SLOTS,
                        self@.objects == before.objects,
                        self.next_id == before.next_id,
                        forall|j: int|
                            0 <= j < MAX_FRAME_SLOTS ==> #[trigger] self.taken@[j] == (if at <= j
                                < k {
                                true
                            } else {
                                before.taken[j]
                            }),
                        forall|j: int|
                            0 <= j < MAX_FRAME_SLOTS ==> #[trigger] self.slots@[j]
                                == before.slots[j],
                    decreases at + pages - k,
                {
                    let ghost was = self@.objects;
                    assert(!before.taken[k as int]);
                    self.taken[k] = true;
                    self.slots[k] = None;
                    assert(self@.objects =~= was);
                    k += 1;
                }
                assert(self@ =~= MemoryView {
                    taken: with_run(before.taken, at as int, pages as int, true),
                    ..before
                });
                return Some(at);
            }
            // A taken slot inside the window: the next run cannot start before
            // it ends.
            proof {
                assert(taken[i as int]);
                assert forall|c: int| 0 <= c < i + 1 implies !#[trigger] fits(
                    taken,
                    pages as int,
                    c,
                ) by {
                    if c >= at {
                        assert(c <= i < c + pages);
                    }
                }
            }
            at = i + 1;
        }
        None
    }

    /// Gives a run back. The slots are cleared as well as freed.
    fn free_run(&mut self, base: usize, pages: usize)
        requires
            base + pages <= MAX_FRAME_SLOTS,
            old(self)@.slots.len() == MAX_FRAME_SLOTS,
            old(self)@.taken.len() == MAX_FRAME_SLOTS,
        ensures
            final(self)@ == (MemoryView {
                slots: with_frames(old(self)@.slots, base as int, slots::empty(pages as nat)),
                taken: with_run(old(self)@.taken, base as int, pages as int, false),
                ..old(self)@
            }),
    {
        let ghost before = self@;
        let mut k: usize = base;
        while k < base + pages
            invariant
                base <= k <= base + pages,
                base + pages <= MAX_FRAME_SLOTS,
                self.taken@.len() == MAX_FRAME_SLOTS,
                self.slots@.len() == MAX_FRAME_SLOTS,
                before.slots.len() == MAX_FRAME_SLOTS,
                before.taken.len() == MAX_FRAME_SLOTS,
                self@.objects == before.objects,
                self.next_id == before.next_id,
                forall|j: int|
                    0 <= j < MAX_FRAME_SLOTS ==> #[trigger] self.taken@[j] == (if base <= j < k {
                        false
                    } else {
                        before.taken[j]
                    }),
                forall|j: int|
                    0 <= j < MAX_FRAME_SLOTS ==> #[trigger] self.slots@[j] == (if base <= j < k {
                        None
                    } else {
                        before.slots[j]
                    }),
            decreases base + pages - k,
        {
            let ghost was = self@.objects;
            self.taken[k] = false;
            self.slots[k] = None;
            assert(self@.objects =~= was);
            k += 1;
        }
        assert(self@ =~= MemoryView {
            slots: with_frames(before.slots, base as int, slots::empty(pages as nat)),
            taken: with_run(before.taken, base as int, pages as int, false),
            ..before
        });
    }

    /// Gives every frame of a run back to `alloc`, in order.
    fn free_frames<F: FrameSource>(&self, base: usize, pages: usize, alloc: &mut F) -> (n: usize)
        requires
            base + pages <= MAX_FRAME_SLOTS,
            self@.slots.len() == MAX_FRAME_SLOTS,
            old(alloc).inv(),
        ensures
            final(alloc).inv(),
            ({
                let frames = present(self@.slots.subrange(base as int, base + pages));
                n == frames.len() && asked(*old(alloc), *final(alloc), frees(frames))
            }),
    {
        let ghost run = self@.slots.subrange(base as int, base + pages);
        let mut n: usize = 0;
        let mut i: usize = 0;
        proof {
            assert(run.take(0) =~= Seq::<Option<PhysFrame>>::empty());
            assert(frees(present(run.take(0))) =~= Seq::<FrameOp>::empty());
            lemma_asked_nothing(*alloc);
        }
        while i < pages
            invariant
                i <= pages,
                n <= i,
                base + pages <= MAX_FRAME_SLOTS,
                self@.slots.len() == MAX_FRAME_SLOTS,
                run == self@.slots.subrange(base as int, base + pages),
                alloc.inv(),
                n == present(run.take(i as int)).len(),
                asked(*old(alloc), *alloc, frees(present(run.take(i as int)))),
            decreases pages - i,
        {
            let ghost so_far = present(run.take(i as int));
            proof {
                assert(run.take(i + 1).drop_last() =~= run.take(i as int));
                assert(run.take(i + 1).last() == run[i as int]);
            }
            if let Some(frame) = self.slots[base + i] {
                let ghost seen = *alloc;
                alloc.free_frame(frame);
                n += 1;
                proof {
                    let one = seq![FrameOp::Freed(frame)];
                    lemma_asked(*old(alloc), seen, *alloc, frees(so_far), one);
                    assert(frees(so_far.push(frame)) =~= frees(so_far) + one);
                }
            }
            i += 1;
        }
        assert(run.take(i as int) =~= run);
        n
    }

    /// How many frame slots are in use.
    pub fn slots_in_use(&self) -> (n: usize)
        requires
            self.wf(),
        ensures
            n == slots::count(self@.taken, |b: bool| b),
    {
        let ghost p = |b: bool| b;
        let mut n: usize = 0;
        let mut i: usize = 0;
        while i < MAX_FRAME_SLOTS
            invariant
                self.wf(),
                p == (|b: bool| b),
                i <= MAX_FRAME_SLOTS,
                n <= i,
                n == slots::count(self@.taken.take(i as int), p),
            decreases MAX_FRAME_SLOTS - i,
        {
            proof {
                slots::lemma_count_take(self@.taken, p, i as int);
            }
            if self.taken[i] {
                n += 1;
            }
            i += 1;
        }
        assert(self@.taken.take(i as int) =~= self@.taken);
        n
    }

    /// How many objects exist.
    pub fn objects_in_use(&self) -> (n: usize)
        requires
            self.wf(),
        ensures
            n == slots::count(self@.objects, slots::used::<MemoryObjectView>()),
    {
        let mut n: usize = 0;
        let mut i: usize = 0;
        while i < MAX_MEMORY_OBJECTS
            invariant
                self.wf(),
                i <= MAX_MEMORY_OBJECTS,
                n <= i,
                n == slots::count(self@.objects.take(i as int), slots::used::<MemoryObjectView>()),
            decreases MAX_MEMORY_OBJECTS - i,
        {
            proof {
                slots::lemma_count_take(
                    self@.objects,
                    slots::used::<MemoryObjectView>(),
                    i as int,
                );
                assert(self@.objects[i as int] == memory_view(self.objects@[i as int]));
            }
            if self.objects[i].is_some() {
                n += 1;
            }
            i += 1;
        }
        assert(self@.objects.take(i as int) =~= self@.objects);
        n
    }

    /// Objects currently backed.
    pub fn count(&self) -> (n: usize)
        requires
            self.wf(),
        ensures
            n == slots::count(self@.objects, slots::used::<MemoryObjectView>()),
    {
        self.objects_in_use()
    }

    fn free_slot(&self) -> (r: Option<usize>)
        requires
            self.wf(),
        ensures
            match r {
                Some(i) => i == self@.vacancy() && i < MAX_MEMORY_OBJECTS,
                None => self@.vacancy() == MAX_MEMORY_OBJECTS,
            },
    {
        let ghost p = slots::free::<MemoryObjectView>();
        let mut i: usize = 0;
        while i < MAX_MEMORY_OBJECTS
            invariant
                self.wf(),
                p == slots::free::<MemoryObjectView>(),
                i <= MAX_MEMORY_OBJECTS,
                forall|j: int| 0 <= j < i ==> !p(#[trigger] self@.objects[j]),
            decreases MAX_MEMORY_OBJECTS - i,
        {
            assert(self@.objects[i as int] == memory_view(self.objects@[i as int]));
            if self.objects[i].is_none() {
                proof {
                    slots::lemma_first_is(self@.objects, p, i as int);
                }
                return Some(i);
            }
            i += 1;
        }
        proof {
            slots::lemma_first_is(self@.objects, p, i as int);
        }
        None
    }

    fn find(&self, object: ObjectId) -> (r: Option<usize>)
        requires
            self.wf(),
        ensures
            match r {
                Some(i) => {
                    &&& i == self@.slot(object)
                    &&& i < MAX_MEMORY_OBJECTS
                    &&& self@.objects[i as int] is Some
                    &&& self@.objects[i as int]->0.object == object
                    &&& self@.find(object) == self@.objects[i as int]
                },
                None => self@.slot(object) == MAX_MEMORY_OBJECTS && self@.find(object) is None,
            },
    {
        let mut i: usize = 0;
        while i < MAX_MEMORY_OBJECTS
            invariant
                self.wf(),
                i <= MAX_MEMORY_OBJECTS,
                forall|j: int| 0 <= j < i ==> !named(object)(#[trigger] self@.objects[j]),
            decreases MAX_MEMORY_OBJECTS - i,
        {
            assert(self@.objects[i as int] == memory_view(self.objects@[i as int]));
            if let Some(e) = &self.objects[i] {
                if e.object == object {
                    proof {
                        slots::lemma_first_is(self@.objects, named(object), i as int);
                    }
                    return Some(i);
                }
            }
            i += 1;
        }
        proof {
            slots::lemma_first_is(self@.objects, named(object), i as int);
        }
        None
    }

    fn entry(&self, object: ObjectId) -> (r: Option<&MemoryObject>)
        requires
            self.wf(),
        ensures
            match r {
                Some(e) => self@.find(object) == Some(e@) && e@.wf() && e@.object == object,
                None => self@.find(object) is None,
            },
    {
        match self.find(object) {
            None => None,
            Some(i) => {
                assert(self@.objects[i as int] == memory_view(self.objects@[i as int]));
                self.objects[i].as_ref()
            },
        }
    }

    fn entry_mut(&mut self, object: ObjectId) -> (r: Option<&mut MemoryObject>)
        requires
            old(self).wf(),
        ensures
            match r {
                Some(e) => {
                    &&& old(self)@.find(object) == Some((*e)@)
                    &&& (*e)@.wf()
                    &&& (*e)@.object == object
                    &&& final(self)@ == old(self)@.with(object, (*final(e))@)
                    &&& (*final(e))@.wf() && (*final(e))@.object == object && (*final(e))@.base == (
                    *e)@.base && (*final(e))@.pages == (*e)@.pages ==> final(self).wf()
                        && final(self)@.find(object) == Some((*final(e))@)
                },
                None => {
                    &&& old(self)@.find(object) is None
                    &&& final(self).wf()
                    &&& final(self)@ == old(self)@
                },
            },
    {
        match self.find(object) {
            None => None,
            Some(i) => {
                let ghost v = self@;
                assert(self@.objects[i as int] == memory_view(self.objects@[i as int]));
                match &mut self.objects[i] {
                    Some(e) => {
                        proof {
                            let c = (*e)@;
                            assert forall|f: MemoryObjectView|
                                f.wf() && f.object == object && f.base == c.base && f.pages
                                    == c.pages implies (#[trigger] v.with(object, f)).wf()
                                && v.with(object, f).find(object) == Some(f) by {
                                lemma_with(v, object, f);
                            }
                        }
                        assert(after_borrow(self)@ =~= v.with(object, (*final(e))@));
                        Some(e)
                    },
                    None => None,
                }
            },
        }
    }

    /// Backs a new object with `pages` freshly drawn frames. Every frame drawn
    /// is cleared at once, before the object exists, so a frame never carries
    /// what its last owner left.
    ///
    /// What came back either satisfies `placement` or the create fails; it is
    /// never weakened. A failure after frames were drawn gives every one of
    /// them back.
    pub fn create<F: FrameSource, Z: FrameMemory>(
        &mut self,
        owner: ObjectId,
        pages: usize,
        placement: Placement,
        contents: &mut Z,
        alloc: &mut F,
    ) -> (r: Result<ObjectId, KError>)
        requires
            old(self).wf(),
            old(self)@.next_id < u32::MAX,
            old(alloc).inv(),
            old(contents).inv(),
        ensures
            final(self).wf(),
            final(alloc).inv(),
            final(contents).inv(),
            forall|i: int|
                old(contents).zeroed().len() <= i < final(contents).zeroed().len()
                    ==> final(contents).blank(#[trigger] final(contents).zeroed()[i]),
            ({
                let v = old(self)@;
                let fit = first_fit(v.taken, pages as int);
                if pages == 0 || pages > MAX_OBJECT_PAGES {
                    &&& r == Err::<ObjectId, _>(KError::InvalidMapping)
                    &&& final(self)@ == v
                    &&& *final(alloc) == *old(alloc)
                    &&& final(contents).zeroed() == old(contents).zeroed()
                } else if v.vacancy() == MAX_MEMORY_OBJECTS {
                    &&& r == Err::<ObjectId, _>(KError::OutOfMemory)
                    &&& final(self)@ == v
                    &&& *final(alloc) == *old(alloc)
                    &&& final(contents).zeroed() == old(contents).zeroed()
                } else if fit is None {
                    &&& r == Err::<ObjectId, _>(KError::OutOfFrameSlots)
                    &&& final(self)@ == v
                    &&& *final(alloc) == *old(alloc)
                    &&& final(contents).zeroed() == old(contents).zeroed()
                } else {
                    exists|frames: Seq<PhysFrame>| #[trigger]
                        created(
                            v,
                            final(self)@,
                            old(contents).zeroed(),
                            final(contents).zeroed(),
                            owner,
                            pages as int,
                            placement,
                            frames,
                            r,
                        ) && hands_out(*old(alloc), frames) && (frames.len() < pages ==> dry_after(
                            *old(alloc),
                            frames,
                        )) && asked(
                            *old(alloc),
                            *final(alloc),
                            create_asks(frames, pages as int, r is Ok),
                        )
                }
            }),
    {
        if pages == 0 || pages > MAX_OBJECT_PAGES {
            return Err(KError::InvalidMapping);
        }
        let slot: usize = match self.free_slot() {
            Some(s) => s,
            None => {
                return Err(KError::OutOfMemory);
            },
        };
        // The run comes before the frames, so a pool with no room refuses
        // before anything is drawn.
        let base: usize = match self.take_run(pages) {
            Some(b) => b,
            None => {
                return Err(KError::OutOfFrameSlots);
            },
        };
        let ghost v = old(self)@;
        let ghost zeroed = old(contents).zeroed();
        let ghost reserved = self@;
        let ghost mut frames: Seq<PhysFrame> = Seq::empty();
        let mut page: usize = 0;
        proof {
            lemma_asked_nothing(*alloc);
            assert(draws(frames) =~= Seq::<FrameOp>::empty());
            assert(zeroed + frames =~= zeroed);
            assert(with_frames(v.slots, base as int, frames.map_values(|f: PhysFrame| Some(f)))
                =~= v.slots);
        }
        let mut short: bool = false;
        while page < pages && !short
            invariant
                v.wf(),
                page <= pages,
                pages <= MAX_OBJECT_PAGES,
                base + pages <= MAX_FRAME_SLOTS,
                fits(v.taken, pages as int, base as int),
                alloc.inv(),
                frames.len() == page,
                hands_out(*old(alloc), frames),
                asked(
                    *old(alloc),
                    *alloc,
                    if short {
                        draws(frames) + seq![FrameOp::Refused]
                    } else {
                        draws(frames)
                    },
                ),
                contents.inv(),
                contents.zeroed() == zeroed + frames,
                forall|i: int| 0 <= i < frames.len() ==> contents.blank(#[trigger] frames[i]),
                zeroed == old(contents).zeroed(),
                reserved == (MemoryView {
                    taken: with_run(v.taken, base as int, pages as int, true),
                    ..v
                }),
                self@ == (MemoryView {
                    slots: with_frames(
                        v.slots,
                        base as int,
                        frames.map_values(|f: PhysFrame| Some(f)),
                    ),
                    ..reserved
                }),
                short ==> page < pages,
                short ==> dry_after(*old(alloc), frames),
            decreases
                pages - page,
                (if short {
                    0int
                } else {
                    1int
                }),
        {
            let ghost s = *alloc;
            let r = alloc.alloc_frame();
            proof {
                lemma_hands_out(*old(alloc), s, *alloc, frames, r);
            }
            match r {
                Some(frame) => {
                    let ghost drawn = frames;
                    let ghost seen = *contents;
                    contents.zero_frame(frame);
                    self.slots[base + page] = Some(frame);
                    proof {
                        frames = drawn.push(frame);
                        let some = |f: PhysFrame| Some(f);
                        assert(zeroed + frames =~= (zeroed + drawn).push(frame));
                        assert forall|i: int| 0 <= i < frames.len() implies contents.blank(
                            #[trigger] frames[i],
                        ) by {
                            if i < drawn.len() {
                                assert(frames[i] == drawn[i]);
                                assert(seen.blank(drawn[i]));
                            }
                        }
                        assert(frames.map_values(some) =~= drawn.map_values(some).push(
                            Some(frame),
                        ));
                        assert(self@ =~= MemoryView {
                            slots: with_frames(v.slots, base as int, frames.map_values(some)),
                            ..reserved
                        });
                    }
                    page += 1;
                },
                None => {
                    short = true;
                },
            }
        }
        let ghost some = |f: PhysFrame| Some(f);
        let ghost run = self@.slots.subrange(base as int, base + pages);
        proof {
            assert forall|i: int| base <= i < base + pages implies #[trigger] v.slots[i] is None by {
                assert(!v.taken[i]);
            }
            assert forall|i: int| frames.len() <= i < run.len() implies (#[trigger] run[i]) is None by {
                assert(v.slots[base + i] is None);
            }
            lemma_present_prefix(run, frames);
        }
        if short {
            let ghost seen = *alloc;
            let _ = self.free_frames(base, pages, alloc);
            self.free_run(base, pages);
            proof {
                lemma_asked(
                    *old(alloc),
                    seen,
                    *alloc,
                    if short {
                        draws(frames) + seq![FrameOp::Refused]
                    } else {
                        draws(frames)
                    },
                    frees(frames),
                );
                assert(self@ =~= v);
                assert(created(
                    v,
                    self@,
                    zeroed,
                    contents.zeroed(),
                    owner,
                    pages as int,
                    placement,
                    frames,
                    Err::<ObjectId, _>(KError::OutOfMemory),
                ));
            }
            return Err(KError::OutOfMemory);
        }
        assert(run =~= frames.map_values(some));
        let satisfied = {
            let staged: Vec<Option<PhysFrame>> = self.copy_run(base, pages);
            placement.satisfied_by(staged.as_slice())
        };
        if let Err(e) = satisfied {
            let ghost seen = *alloc;
            let _ = self.free_frames(base, pages, alloc);
            self.free_run(base, pages);
            proof {
                lemma_asked(
                    *old(alloc),
                    seen,
                    *alloc,
                    if short {
                        draws(frames) + seq![FrameOp::Refused]
                    } else {
                        draws(frames)
                    },
                    frees(frames),
                );
                assert(self@ =~= v);
                assert(created(
                    v,
                    self@,
                    zeroed,
                    contents.zeroed(),
                    owner,
                    pages as int,
                    placement,
                    frames,
                    Err::<ObjectId, _>(KError::OutOfMemory),
                ));
            }
            return Err(e);
        }
        let object = ObjectId::from_raw(self.next_id);
        let mut holders: Vec<ObjectId> = Vec::new();
        holders.push(owner);
        self.objects[slot] = Some(
            MemoryObject {
                object,
                holders,
                base,
                pages,
                class: MemoryClass::Unclassified,
                placement,
                attached: None,
                last_attachment: None,
                pager: None,
                served_by: None,
                faulted: false,
                cache: ObjectCache::new(DIRTY_LIMIT),
            },
        );
        self.next_id = self.next_id + 1;
        proof {
            let o = MemoryObjectView::backed(object, owner, base as int, pages as int, placement);
            slots::lemma_count_zero(o.cache.pages, dirty());
            assert(o.wf());
            assert(seq![owner] =~= holders@);
            assert(self@ =~= v.added(o, frames.map_values(some)));
            lemma_added(v, o, frames.map_values(some));
            assert(created(
                v,
                self@,
                zeroed,
                contents.zeroed(),
                owner,
                pages as int,
                placement,
                frames,
                Ok::<_, KError>(object),
            ));
        }
        Ok(object)
    }

    fn copy_run(&self, base: usize, pages: usize) -> (v: Vec<Option<PhysFrame>>)
        requires
            base + pages <= MAX_FRAME_SLOTS,
            self@.slots.len() == MAX_FRAME_SLOTS,
        ensures
            v@ == self@.slots.subrange(base as int, base + pages),
    {
        let mut v: Vec<Option<PhysFrame>> = Vec::new();
        let mut i: usize = 0;
        while i < pages
            invariant
                i <= pages,
                base + pages <= MAX_FRAME_SLOTS,
                self@.slots.len() == MAX_FRAME_SLOTS,
                v@ == self@.slots.subrange(base as int, base + i),
            decreases pages - i,
        {
            v.push(self.slots[base + i]);
            i += 1;
            assert(self@.slots.subrange(base as int, base + i) =~= self@.slots.subrange(
                base as int,
                base + i - 1,
            ).push(self@.slots[base + i - 1]));
        }
        v
    }

    /// Creates a service-backed object: `pages` pages that do not exist yet,
    /// supplied on demand by `pager`. It draws no frames, and reserves its
    /// slots up front so that a page arriving later has somewhere to go.
    pub fn create_paged(&mut self, owner: ObjectId, pages: usize, pager: ObjectId) -> (r: Result<
        ObjectId,
        KError,
    >)
        requires
            old(self).wf(),
            old(self)@.next_id < u32::MAX,
        ensures
            final(self).wf(),
            ({
                let v = old(self)@;
                let fit = first_fit(v.taken, pages as int);
                match r {
                    Ok(object) => {
                        &&& 1 <= pages <= MAX_OBJECT_PAGES
                        &&& v.vacancy() < MAX_MEMORY_OBJECTS
                        &&& fit is Some
                        &&& object == ObjectId(v.next_id)
                        &&& final(self)@ == v.added(
                            MemoryObjectView::paged(object, owner, fit->0, pages as int, pager),
                            slots::empty(pages as nat),
                        )
                    },
                    Err(e) => {
                        &&& final(self)@ == v
                        &&& if pages == 0 || pages > MAX_OBJECT_PAGES {
                            e == KError::InvalidMapping
                        } else if v.vacancy() == MAX_MEMORY_OBJECTS {
                            e == KError::OutOfMemory
                        } else {
                            e == KError::OutOfFrameSlots && fit is None
                        }
                    },
                }
            }),
    {
        if pages == 0 || pages > MAX_OBJECT_PAGES {
            return Err(KError::InvalidMapping);
        }
        let slot: usize = match self.free_slot() {
            Some(s) => s,
            None => {
                return Err(KError::OutOfMemory);
            },
        };
        let base: usize = match self.take_run(pages) {
            Some(b) => b,
            None => {
                return Err(KError::OutOfFrameSlots);
            },
        };
        let ghost v = old(self)@;
        let object = ObjectId::from_raw(self.next_id);
        let mut holders: Vec<ObjectId> = Vec::new();
        holders.push(owner);
        self.objects[slot] = Some(
            MemoryObject {
                object,
                holders,
                base,
                pages,
                class: MemoryClass::Unclassified,
                placement: Placement {
                    device_contiguous: false,
                    physically_contiguous: false,
                    alignment: 0,
                    address_limit: 0,
                },
                attached: None,
                last_attachment: None,
                pager: Some(pager),
                served_by: Some(owner),
                faulted: false,
                cache: ObjectCache::new(DIRTY_LIMIT),
            },
        );
        self.next_id = self.next_id + 1;
        proof {
            let o = MemoryObjectView::paged(object, owner, base as int, pages as int, pager);
            slots::lemma_count_zero(o.cache.pages, dirty());
            assert(o.wf());
            assert(seq![owner] =~= holders@);
            assert forall|i: int| base <= i < base + pages implies #[trigger] v.slots[i] is None by {
                assert(!v.taken[i]);
            }
            assert(self@ =~= v.added(o, slots::empty(pages as nat)));
            lemma_added(v, o, slots::empty(pages as nat));
        }
        Ok(object)
    }

    /// The endpoint that supplies `object`'s pages, or `None` if it is
    /// kernel-backed.
    pub fn pager_of(&self, object: ObjectId) -> (r: Option<ObjectId>)
        requires
            self.wf(),
        ensures
            r == match self@.find(object) {
                Some(o) => o.pager,
                None => None,
            },
    {
        match self.entry(object) {
            Some(e) => e.pager,
            None => None,
        }
    }

    /// The process that answers for `object`'s contents: its creator, which does
    /// not change when the capability is handed on.
    pub fn served_by(&self, object: ObjectId) -> (r: Option<ObjectId>)
        requires
            self.wf(),
        ensures
            r == match self@.find(object) {
                Some(o) => o.served_by,
                None => None,
            },
    {
        match self.entry(object) {
            Some(e) => e.served_by,
            None => None,
        }
    }

    /// Whether `object`'s pager has failed it.
    pub fn is_faulted(&self, object: ObjectId) -> (r: bool)
        requires
            self.wf(),
        ensures
            r == match self@.find(object) {
                Some(o) => o.faulted,
                None => false,
            },
    {
        match self.entry(object) {
            Some(e) => e.faulted,
            None => false,
        }
    }

    /// Where `object`'s creator said it had to be.
    pub fn placement_of(&self, object: ObjectId) -> (r: Option<Placement>)
        requires
            self.wf(),
        ensures
            r == match self@.find(object) {
                Some(o) => Some(o.placement),
                None => None,
            },
    {
        match self.entry(object) {
            Some(e) => Some(e.placement),
            None => None,
        }
    }

    /// The handling path `object` is on, or `None` if it is not a memory object.
    pub fn class_of(&self, object: ObjectId) -> (r: Option<MemoryClass>)
        requires
            self.wf(),
        ensures
            r == match self@.find(object) {
                Some(o) => Some(o.class),
                None => None,
            },
    {
        match self.entry(object) {
            Some(e) => Some(e.class),
            None => None,
        }
    }

    /// Where `object` is currently reachable from, if anywhere.
    pub fn attachment_of(&self, object: ObjectId) -> (r: Option<Attachment>)
        requires
            self.wf(),
        ensures
            r == match self@.find(object) {
                Some(o) => o.attached,
                None => None,
            },
    {
        match self.entry(object) {
            Some(e) => e.attached,
            None => None,
        }
    }
}

impl MemoryTable {
    /// Puts `object` into the faulted state: its pager failed to answer for it,
    /// so nothing will ask again. Resident pages stay readable.
    pub fn set_faulted(&mut self, object: ObjectId)
        requires
            old(self).wf(),
        ensures
            final(self).wf(),
            final(self)@ == match old(self)@.find(object) {
                Some(o) => old(self)@.with(object, MemoryObjectView { faulted: true, ..o }),
                None => old(self)@,
            },
    {
        if let Some(e) = self.entry_mut(object) {
            let ghost o = (*e)@;
            e.faulted = true;
            assert((*e)@ =~= MemoryObjectView { faulted: true, ..o });
        }
    }

    /// A clean resident page of `object` that could be dropped, or `None` if
    /// every resident page is dirty. Never a dirty one: it holds the only copy
    /// of a write.
    pub fn evict_candidate(&self, object: ObjectId) -> (r: Option<u64>)
        requires
            self.wf(),
        ensures
            match r {
                Some(offset) => self@.find(object) matches Some(o) && o.cache.evictable(offset),
                None => self@.find(object) matches Some(o) ==> !slots::any(
                    o.cache.pages,
                    crate::pager::clean(),
                ),
            },
    {
        match self.entry(object) {
            Some(e) => e.cache.evict_candidate(),
            None => None,
        }
    }

    /// Some object with a page that can be dropped, and which page. Only
    /// service-backed objects: a kernel-backed object's pages are its whole
    /// existence.
    pub fn any_evictable(&self) -> (r: Option<(ObjectId, u64)>)
        requires
            self.wf(),
        ensures
            ({
                let at = slots::first(self@.objects, reclaimable());
                match r {
                    Some((object, offset)) => {
                        &&& at < MAX_MEMORY_OBJECTS
                        &&& self@.objects[at]->0.object == object
                        &&& self@.objects[at]->0.cache.evictable(offset)
                    },
                    None => at == MAX_MEMORY_OBJECTS,
                }
            }),
    {
        let mut i: usize = 0;
        while i < MAX_MEMORY_OBJECTS
            invariant
                self.wf(),
                i <= MAX_MEMORY_OBJECTS,
                forall|j: int| 0 <= j < i ==> !reclaimable()(#[trigger] self@.objects[j]),
            decreases MAX_MEMORY_OBJECTS - i,
        {
            assert(self@.objects[i as int] == memory_view(self.objects@[i as int]));
            if let Some(e) = &self.objects[i] {
                if e.pager.is_some() && !e.faulted {
                    assert(e@.wf());
                    if let Some(offset) = e.cache.evict_candidate() {
                        proof {
                            let c = e@.cache;
                            slots::lemma_first(c.pages, crate::pager::page_at(offset));
                            assert(crate::pager::clean()(c.pages[c.slot(offset)]));
                            slots::lemma_first_is(self@.objects, reclaimable(), i as int);
                        }
                        return Some((e.object, offset));
                    }
                }
            }
            i += 1;
        }
        proof {
            slots::lemma_first_is(self@.objects, reclaimable(), i as int);
        }
        None
    }

    /// Some object with a dirty page, and its lowest: what reclaim writes back
    /// when nothing clean is left to take.
    pub fn any_dirty(&self) -> (r: Option<(ObjectId, u64)>)
        requires
            self.wf(),
        ensures
            ({
                let at = slots::first(self@.objects, flushable());
                match r {
                    Some((object, offset)) => {
                        &&& at < MAX_MEMORY_OBJECTS
                        &&& self@.objects[at]->0.object == object
                        &&& lowest_dirty(self@.objects[at]->0.cache, offset)
                    },
                    None => at == MAX_MEMORY_OBJECTS,
                }
            }),
    {
        let mut i: usize = 0;
        while i < MAX_MEMORY_OBJECTS
            invariant
                self.wf(),
                i <= MAX_MEMORY_OBJECTS,
                forall|j: int| 0 <= j < i ==> !flushable()(#[trigger] self@.objects[j]),
            decreases MAX_MEMORY_OBJECTS - i,
        {
            assert(self@.objects[i as int] == memory_view(self.objects@[i as int]));
            if let Some(e) = &self.objects[i] {
                if e.pager.is_some() && !e.faulted {
                    assert(e@.wf());
                    let mut offsets: Vec<u64> = vec![0u64; MAX_OBJECT_PAGES];
                    let n: usize = e.cache.dirty_offsets(offsets.as_mut_slice());
                    proof {
                        crate::pager::lemma_reported(
                            e@.cache,
                            Seq::new(MAX_OBJECT_PAGES as nat, |k: int| 0u64),
                            offsets@,
                            n as int,
                        );
                    }
                    if n > 0 {
                        proof {
                            slots::lemma_first_is(self@.objects, flushable(), i as int);
                        }
                        return Some((e.object, offsets[0]));
                    }
                }
            }
            i += 1;
        }
        proof {
            slots::lemma_first_is(self@.objects, flushable(), i as int);
        }
        None
    }

    /// Drops `object`'s page at `offset` from the cache, handing back the frame
    /// the object was holding it in. Refused for a dirty page: dropping it
    /// would lose a write.
    pub fn evict(&mut self, object: ObjectId, offset: u64) -> (r: Option<PhysFrame>)
        requires
            old(self).wf(),
        ensures
            final(self).wf(),
            match evicted(old(self)@, object, offset) {
                Some(frame) => {
                    let o = old(self)@.find(object)->0;
                    let at = o.base + offset as int / FRAME_SIZE as int;
                    &&& r == Some(frame)
                    &&& final(self)@ == (MemoryView {
                        slots: old(self)@.slots.update(at, None),
                        ..old(self)@.with(
                            object,
                            MemoryObjectView { cache: o.cache.forgotten(offset), ..o },
                        )
                    })
                },
                None => r is None && final(self)@ == old(self)@,
            },
    {
        let number: u64 = offset / FRAME_SIZE;
        let at: usize = match self.entry(object) {
            None => {
                return None;
            },
            Some(e) => {
                if e.cache.is_dirty(offset) || number >= e.pages as u64 {
                    return None;
                }
                e.base + number as usize
            },
        };
        let ghost v = self@;
        let ghost o = v.find(object)->0;
        let frame: PhysFrame = match self.slots[at] {
            None => {
                return None;
            },
            Some(f) => f,
        };
        // Forgotten from both records together, as they were installed
        // together.
        if let Some(e) = self.entry_mut(object) {
            e.cache.forget(offset);
            assert((*e)@ =~= MemoryObjectView { cache: o.cache.forgotten(offset), ..o });
        }
        let ghost w = self@;
        self.slots[at] = None;
        proof {
            assert(self@ =~= MemoryView { slots: w.slots.update(at as int, None), ..w });
            lemma_slot_write(w, at as int, None, object);
        }
        Some(frame)
    }

    /// Records `frame` as `object`'s page `page`. Refused for a kernel-backed
    /// object, for a page past its end, and for a page that is already there:
    /// overwriting would drop the old frame's only reference. A page the cache
    /// cannot take is not recorded.
    pub fn supply(&mut self, object: ObjectId, page: usize, frame: PhysFrame) -> (r: Result<
        (),
        KError,
    >)
        requires
            old(self).wf(),
        ensures
            final(self).wf(),
            match supply_refusal(old(self)@, object, page as int) {
                Some(e) => r == Err::<(), _>(e) && final(self)@ == old(self)@,
                None => {
                    let v = old(self)@;
                    let o = v.find(object)->0;
                    let offset = (page * FRAME_SIZE) as u64;
                    let w = MemoryView {
                        slots: v.slots.update(o.base + page, Some(frame)),
                        ..v
                    };
                    if o.cache.faulted {
                        r == Err::<(), _>(KError::BadHandle) && final(self)@ == v
                    } else if !o.cache.resident(offset) && o.cache.vacancy()
                        == o.cache.pages.len() {
                        r == Err::<(), _>(KError::OutOfMemory) && final(self)@ == v
                    } else {
                        &&& r is Ok
                        &&& final(self)@ == w.with(
                            object,
                            MemoryObjectView { cache: o.cache.installed(offset), ..o },
                        )
                    }
                },
            },
    {
        let at: usize = match self.entry(object) {
            None => {
                return Err(KError::BadHandle);
            },
            Some(e) => {
                if e.pager.is_none() {
                    return Err(KError::InvalidMapping);
                }
                if page >= e.pages {
                    return Err(KError::InvalidArgument);
                }
                e.base + page
            },
        };
        let ghost v = self@;
        let ghost o = v.find(object)->0;
        if self.slots[at].is_some() {
            return Err(KError::AlreadyMapped);
        }
        // The cache takes the page first: if it cannot, nothing has changed.
        let mut result: Result<(), KError> = Err(KError::BadHandle);
        if let Some(e) = self.entry_mut(object) {
            result = e.cache.install(page as u64 * FRAME_SIZE);
            assert((*e)@ =~= MemoryObjectView { cache: (*e)@.cache, ..o });
        }
        proof {
            slots::lemma_first(v.objects, named(object));
            assert(v.with(object, o) =~= v);
        }
        if result.is_ok() {
            let ghost w = self@;
            proof {
                lemma_slot_write(w, at as int, Some(frame), object);
            }
            self.slots[at] = Some(frame);
            assert(self@ =~= MemoryView { slots: w.slots.update(at as int, Some(frame)), ..w });
            assert(self@ =~= MemoryView {
                slots: v.slots.update(at as int, Some(frame)),
                ..v
            }.with(object, self@.find(object)->0));
        }
        result
    }

    /// Records that `object`'s page at `offset` has been written, or refuses
    /// when the object is already at its dirty bound. An object nobody can find
    /// cannot be dirtied.
    pub fn mark_dirty(&mut self, object: ObjectId, offset: u64) -> (r: DirtyOutcome)
        requires
            old(self).wf(),
        ensures
            final(self).wf(),
            match old(self)@.find(object) {
                None => r == DirtyOutcome::Throttle && final(self)@ == old(self)@,
                Some(o) => if o.cache.admits_store(offset) {
                    &&& r == DirtyOutcome::Marked
                    &&& final(self)@ == old(self)@.with(
                        object,
                        MemoryObjectView { cache: o.cache.stored(offset), ..o },
                    )
                } else {
                    r == DirtyOutcome::Throttle && final(self)@ == old(self)@
                },
            },
    {
        let mut outcome: DirtyOutcome = DirtyOutcome::Throttle;
        let ghost v = self@;
        if let Some(e) = self.entry_mut(object) {
            let ghost o = (*e)@;
            outcome = e.cache.mark_dirty(offset);
            assert((*e)@ =~= MemoryObjectView { cache: (*e)@.cache, ..o });
        }
        proof {
            if v.find(object) is Some {
                slots::lemma_first(v.objects, named(object));
                assert(v.with(object, v.find(object)->0) =~= v);
            }
        }
        outcome
    }

    /// Marks `object`'s page at `offset` clean: only ever after its pager has
    /// acknowledged the write-back that persisted it.
    pub fn mark_clean(&mut self, object: ObjectId, offset: u64)
        requires
            old(self).wf(),
        ensures
            final(self).wf(),
            final(self)@ == match old(self)@.find(object) {
                Some(o) => old(self)@.with(
                    object,
                    MemoryObjectView { cache: o.cache.cleaned(offset), ..o },
                ),
                None => old(self)@,
            },
    {
        if let Some(e) = self.entry_mut(object) {
            let ghost o = (*e)@;
            e.cache.mark_clean(offset);
            assert((*e)@ =~= MemoryObjectView { cache: (*e)@.cache, ..o });
        }
    }

    /// Opens a write-back window over `object`'s page at `offset`: from here
    /// until [`end_write_back`](Self::end_write_back), a store to the page is
    /// recorded as having overtaken the request.
    pub fn begin_write_back(&mut self, object: ObjectId, offset: u64)
        requires
            old(self).wf(),
        ensures
            final(self).wf(),
            final(self)@ == match old(self)@.find(object) {
                Some(o) => old(self)@.with(
                    object,
                    MemoryObjectView { cache: o.cache.write_back_begun(offset), ..o },
                ),
                None => old(self)@,
            },
    {
        if let Some(e) = self.entry_mut(object) {
            let ghost o = (*e)@;
            e.cache.begin_write_back(offset);
            assert((*e)@ =~= MemoryObjectView { cache: (*e)@.cache, ..o });
        }
    }

    /// Closes the window, reporting whether a store landed inside it: the page
    /// must then stay dirty. An object that went away has nothing left to keep
    /// dirty.
    pub fn end_write_back(&mut self, object: ObjectId, offset: u64) -> (overtaken: bool)
        requires
            old(self).wf(),
        ensures
            final(self).wf(),
            match old(self)@.find(object) {
                Some(o) => {
                    &&& overtaken == (o.cache.resident(offset) && o.cache.page(offset).overtaken)
                    &&& final(self)@ == old(self)@.with(
                        object,
                        MemoryObjectView { cache: o.cache.write_back_ended(offset), ..o },
                    )
                },
                None => !overtaken && final(self)@ == old(self)@,
            },
    {
        let mut overtaken: bool = false;
        if let Some(e) = self.entry_mut(object) {
            let ghost o = (*e)@;
            overtaken = e.cache.end_write_back(offset);
            assert((*e)@ =~= MemoryObjectView { cache: (*e)@.cache, ..o });
        }
        overtaken
    }

    /// Whether `object`'s page at `offset` has been written since it was
    /// supplied or last written back.
    pub fn is_dirty(&self, object: ObjectId, offset: u64) -> (b: bool)
        requires
            self.wf(),
        ensures
            b == (self@.find(object) matches Some(o) && o.cache.is_dirty(offset)),
    {
        match self.entry(object) {
            Some(e) => e.cache.is_dirty(offset),
            None => false,
        }
    }

    /// How many of `object`'s pages are dirty.
    pub fn dirty_count(&self, object: ObjectId) -> (n: u32)
        requires
            self.wf(),
        ensures
            n == match self@.find(object) {
                Some(o) => o.cache.dirty_count(),
                None => 0,
            },
    {
        match self.entry(object) {
            Some(e) => e.cache.dirty_count(),
            None => 0,
        }
    }

    /// Fills `out` with the offsets of `object`'s dirty pages, ascending, and
    /// returns how many: the dirty-range query a coordinated flush walks.
    pub fn dirty_offsets(&self, object: ObjectId, out: &mut [u64]) -> (n: usize)
        requires
            self.wf(),
        ensures
            match self@.find(object) {
                Some(o) => crate::pager::reports(
                    old(out)@,
                    final(out)@,
                    n as int,
                    crate::pager::dirty_list(o.cache.pages),
                ),
                None => n == 0 && final(out)@ == old(out)@,
            },
    {
        match self.entry(object) {
            Some(e) => e.cache.dirty_offsets(out),
            None => 0,
        }
    }

    /// The frame holding `object`'s page `page`, or `None` if it is not
    /// resident.
    pub fn frame_at(&self, object: ObjectId, page: usize) -> (r: Option<PhysFrame>)
        requires
            self.wf(),
        ensures
            r == match self@.find(object) {
                Some(o) => if page < o.pages {
                    self@.slots[o.base + page]
                } else {
                    None
                },
                None => None,
            },
    {
        match self.entry(object) {
            None => None,
            Some(e) => {
                if page >= e.pages {
                    return None;
                }
                self.slots[e.base + page]
            },
        }
    }

    /// How many of `object`'s pages are resident right now.
    pub fn resident_pages(&self, object: ObjectId) -> (n: usize)
        requires
            self.wf(),
        ensures
            n == match self@.find(object) {
                Some(o) => present(self@.run(o)).len(),
                None => 0,
            },
    {
        match self.entry(object) {
            None => 0,
            Some(e) => {
                let run: Vec<Option<PhysFrame>> = self.copy_run(e.base, e.pages);
                let frames: Vec<PhysFrame> = present_frames(&run);
                frames.len()
            },
        }
    }

    /// Puts `object` on a handling path, and refuses to take it off one:
    /// classification is monotonic. Classifying an object as what it already is
    /// succeeds and changes nothing. [`KError::WrongType`] for an id that is
    /// not a memory object.
    pub fn classify(&mut self, object: ObjectId, class: MemoryClass) -> (r: Result<(), KError>)
        requires
            old(self).wf(),
        ensures
            final(self).wf(),
            match old(self)@.find(object) {
                None => r == Err::<(), _>(KError::WrongType) && final(self)@ == old(self)@,
                Some(o) => if strength(class) < strength(o.class) {
                    r == Err::<(), _>(KError::AccessDenied) && final(self)@ == old(self)@
                } else {
                    &&& r is Ok
                    &&& final(self)@ == old(self)@.with(object, MemoryObjectView { class, ..o })
                },
            },
    {
        let ghost v = self@;
        match self.class_of(object) {
            None => Err(KError::WrongType),
            Some(current) => {
                if matches!(class, MemoryClass::Unclassified) && matches!(
                    current,
                    MemoryClass::Protected
                ) {
                    return Err(KError::AccessDenied);
                }
                if let Some(e) = self.entry_mut(object) {
                    let ghost o = (*e)@;
                    e.class = class;
                    assert((*e)@ =~= MemoryObjectView { class, ..o });
                }
                Ok(())
            },
        }
    }

    /// Moves `object` to `owner` alone: what a transfer does. Every previous
    /// holder is replaced. Returns whether the object exists.
    pub fn set_sole_holder(&mut self, object: ObjectId, owner: ObjectId) -> (b: bool)
        requires
            old(self).wf(),
        ensures
            final(self).wf(),
            match old(self)@.find(object) {
                Some(o) => {
                    &&& b
                    &&& final(self)@ == old(self)@.with(
                        object,
                        MemoryObjectView { holders: seq![owner], ..o },
                    )
                },
                None => !b && final(self)@ == old(self)@,
            },
    {
        let mut found: bool = false;
        if let Some(e) = self.entry_mut(object) {
            let ghost o = (*e)@;
            let mut holders: Vec<ObjectId> = Vec::new();
            holders.push(owner);
            assert(holders@ =~= seq![owner]);
            e.holders = holders;
            assert((*e)@ =~= MemoryObjectView { holders: seq![owner], ..o });
            found = true;
        }
        found
    }

    /// Adds `holder` to `object`'s holders: what a share does. Idempotent,
    /// because the set is per process. [`KError::LimitExceeded`] when the set is
    /// full.
    pub fn add_holder(&mut self, object: ObjectId, holder: ObjectId) -> (r: Result<(), KError>)
        requires
            old(self).wf(),
        ensures
            final(self).wf(),
            match old(self)@.find(object) {
                None => r == Err::<(), _>(KError::BadHandle) && final(self)@ == old(self)@,
                Some(o) => if o.holders.contains(holder) {
                    r is Ok && final(self)@ == old(self)@
                } else if o.holders.len() == MAX_HOLDERS {
                    r == Err::<(), _>(KError::LimitExceeded) && final(self)@ == old(self)@
                } else {
                    &&& r is Ok
                    &&& final(self)@ == old(self)@.with(
                        object,
                        MemoryObjectView { holders: o.holders.push(holder), ..o },
                    )
                },
            },
    {
        match self.entry(object) {
            None => {
                return Err(KError::BadHandle);
            },
            Some(e) => {
                if crate::handle::contains_id(&e.holders, holder) {
                    return Ok(());
                }
                if e.holders.len() >= MAX_HOLDERS {
                    return Err(KError::LimitExceeded);
                }
            },
        }
        if let Some(e) = self.entry_mut(object) {
            let ghost o = (*e)@;
            e.holders.push(holder);
            assert((*e)@ =~= MemoryObjectView { holders: o.holders.push(holder), ..o });
        }
        Ok(())
    }

    /// Removes `holder` from `object`, and says whether anybody still holds it.
    /// `false` means this was the last one and the frames are now nobody's.
    pub fn remove_holder(&mut self, object: ObjectId, holder: ObjectId) -> (held: bool)
        requires
            old(self).wf(),
        ensures
            final(self).wf(),
            match old(self)@.find(object) {
                None => !held && final(self)@ == old(self)@,
                Some(o) => {
                    let left = o.holders.filter(other_than(holder));
                    &&& held == (left.len() > 0)
                    &&& final(self)@ == old(self)@.with(
                        object,
                        MemoryObjectView { holders: left, ..o },
                    )
                },
            },
    {
        let mut held: bool = false;
        if let Some(e) = self.entry_mut(object) {
            let ghost o = (*e)@;
            let kept: Vec<ObjectId> = without_id(&e.holders, holder);
            held = kept.len() > 0;
            proof {
                let p = other_than(holder);
                o.holders.lemma_filter_len(p);
                lemma_filter_distinct(o.holders, p);
            }
            e.holders = kept;
            assert((*e)@ =~= MemoryObjectView {
                holders: o.holders.filter(other_than(holder)),
                ..o
            });
        }
        held
    }

    /// Whether `holder` holds `object`.
    pub fn is_held_by(&self, object: ObjectId, holder: ObjectId) -> (b: bool)
        requires
            self.wf(),
        ensures
            b == (self@.find(object) matches Some(o) && o.holders.contains(holder)),
    {
        match self.entry(object) {
            Some(e) => crate::handle::contains_id(&e.holders, holder),
            None => false,
        }
    }

    /// How many processes hold `object`. `None` if it is not a memory object.
    pub fn holder_count(&self, object: ObjectId) -> (r: Option<usize>)
        requires
            self.wf(),
        ensures
            match r {
                Some(n) => self@.find(object) matches Some(o) && n == o.holders.len(),
                None => self@.find(object) is None,
            },
    {
        match self.entry(object) {
            Some(e) => Some(e.holders.len()),
            None => None,
        }
    }

    /// The first holder, which under transfer is the only one.
    pub fn owner_of(&self, object: ObjectId) -> (r: Option<ObjectId>)
        requires
            self.wf(),
        ensures
            r == match self@.find(object) {
                Some(o) => if o.holders.len() > 0 {
                    Some(o.holders[0])
                } else {
                    None
                },
                None => None,
            },
    {
        match self.entry(object) {
            Some(e) => if e.holders.len() > 0 {
                Some(e.holders[0])
            } else {
                None
            },
            None => None,
        }
    }

    /// Every object `holder` holds, in `out`; returns how many: the sweep a
    /// departing process's teardown walks.
    pub fn objects_held_by(&self, holder: ObjectId, out: &mut [ObjectId]) -> (n: usize)
        requires
            self.wf(),
        ensures
            filled(old(out)@, final(out)@, n as int, listed(self@.objects, held_by(holder))),
    {
        let mut n: usize = 0;
        let mut i: usize = 0;
        let ghost objects = self@.objects;
        let ghost p = held_by(holder);
        proof {
            lemma_listing_starts(out@, objects, p);
        }
        while i < MAX_MEMORY_OBJECTS
            invariant
                self.wf(),
                objects == self@.objects,
                p == held_by(holder),
                i <= MAX_MEMORY_OBJECTS,
                filled(old(out)@, out@, n as int, listed(objects.take(i as int), p)),
            decreases MAX_MEMORY_OBJECTS - i,
        {
            proof {
                assert(objects[i as int] == memory_view(self.objects@[i as int]));
                lemma_listing_steps(old(out)@, out@, n as int, objects, p, i as int);
            }
            if let Some(e) = &self.objects[i] {
                if n < out.len() && crate::handle::contains_id(&e.holders, holder) {
                    out[n] = e.object;
                    n += 1;
                }
            }
            i += 1;
        }
        assert(objects.take(i as int) =~= objects);
        n
    }

    /// How many pages `object` spans. `None` means the capability names
    /// something that is not a memory object.
    pub fn pages_of(&self, object: ObjectId) -> (r: Option<usize>)
        requires
            self.wf(),
        ensures
            match r {
                Some(n) => self@.find(object) matches Some(o) && n == o.pages,
                None => self@.find(object) is None,
            },
    {
        match self.entry(object) {
            Some(e) => Some(e.pages),
            None => None,
        }
    }

    /// The object's length in bytes.
    pub fn len_of(&self, object: ObjectId) -> (r: Option<u64>)
        requires
            self.wf(),
        ensures
            match r {
                Some(n) => self@.find(object) matches Some(o) && n == o.pages * FRAME_SIZE,
                None => self@.find(object) is None,
            },
    {
        match self.entry(object) {
            Some(e) => Some(e.pages as u64 * FRAME_SIZE),
            None => None,
        }
    }

    /// Copies `object`'s frames into `out`, returning how many. A short `out`
    /// truncates.
    pub fn frames_of(&self, object: ObjectId, out: &mut [PhysFrame]) -> (n: usize)
        requires
            self.wf(),
        ensures
            match self@.find(object) {
                Some(o) => filled(old(out)@, final(out)@, n as int, present(self@.run(o))),
                None => n == 0 && final(out)@ == old(out)@,
            },
    {
        match self.entry(object) {
            None => 0,
            Some(e) => {
                let run: Vec<Option<PhysFrame>> = self.copy_run(e.base, e.pages);
                let frames: Vec<PhysFrame> = present_frames(&run);
                let ghost list = frames@;
                let mut n: usize = 0;
                assert(out@ =~= list.take(0) + old(out)@.skip(0));
                while n < frames.len() && n < out.len()
                    invariant
                        list == frames@,
                        n <= list.len(),
                        n <= old(out)@.len(),
                        out@ == list.take(n as int) + old(out)@.skip(n as int),
                    decreases list.len() - n,
                {
                    out[n] = frames[n];
                    n += 1;
                    assert(out@ =~= list.take(n as int) + old(out)@.skip(n as int));
                }
                n
            },
        }
    }

    /// Drops the object's own reference to each of its frames and forgets it,
    /// returning how many frames were released. A frame still mapped somewhere
    /// has been retained by that mapping and stays alive. While a device can
    /// still reach the object, nothing happens: returning the frames would put
    /// memory a device is writing into somebody else's hands. What is then left is
    /// told by [`refused_destroy`](Self::refused_destroy).
    pub fn destroy<F: FrameSource>(&mut self, object: ObjectId, alloc: &mut F) -> (n: usize)
        requires
            old(self).wf(),
            old(alloc).inv(),
        ensures
            final(self).wf(),
            final(alloc).inv(),
            match old(self)@.find(object) {
                Some(o) => if o.attached is None {
                    let frames = present(old(self)@.run(o));
                    &&& n == frames.len()
                    &&& asked(*old(alloc), *final(alloc), frees(frames))
                    &&& final(self)@ == old(self)@.removed(old(self)@.slot(object))
                } else {
                    &&& n == 0
                    &&& *final(alloc) == *old(alloc)
                    &&& final(self)@ == old(self)@
                },
                None => {
                    &&& n == 0
                    &&& *final(alloc) == *old(alloc)
                    &&& final(self)@ == old(self)@
                },
            },
    {
        let slot: usize = match self.find(object) {
            None => {
                return 0;
            },
            Some(i) => i,
        };
        let ghost v = self@;
        let ghost o = v.objects[slot as int]->0;
        assert(self@.objects[slot as int] == memory_view(self.objects@[slot as int]));
        let mut base: usize = 0;
        let mut pages: usize = 0;
        if let Some(e) = &self.objects[slot] {
            if e.attached.is_some() {
                return 0;
            }
            base = e.base;
            pages = e.pages;
        }
        assert(o.wf());
        let released: usize = self.free_frames(base, pages, alloc);
        self.free_run(base, pages);
        self.objects[slot] = None;
        proof {
            assert(self@ =~= v.removed(slot as int));
            lemma_removed(v, slot as int);
        }
        released
    }

    /// The record of why `object` is not destroyed, if it is not: the device that
    /// can still reach it, and where.
    pub fn refused_destroy(&self, object: ObjectId) -> (r: Option<DestroyRefused>)
        requires
            self.wf(),
        ensures
            r == match self@.find(object) {
                Some(o) => match o.attached {
                    Some(a) => Some(
                        DestroyRefused {
                            cause: RECLAIM_REFUSED_STILL_ATTACHED,
                            object,
                            device: a.device,
                            address: a.address,
                        },
                    ),
                    None => None,
                },
                None => None,
            },
    {
        match self.attachment_of(object) {
            Some(a) => Some(
                DestroyRefused {
                    cause: RECLAIM_REFUSED_STILL_ATTACHED,
                    object,
                    device: a.device,
                    address: a.address,
                },
            ),
            None => None,
        }
    }

    /// Records that `object` is reachable by a device. A second attachment is
    /// [`KError::AlreadyMapped`], not a replacement: replacing would drop the
    /// record of the first without unmapping it.
    pub fn attach(&mut self, object: ObjectId, attachment: Attachment) -> (r: Result<(), KError>)
        requires
            old(self).wf(),
        ensures
            final(self).wf(),
            match old(self)@.find(object) {
                None => r == Err::<(), _>(KError::BadHandle) && final(self)@ == old(self)@,
                Some(o) => if o.attached is Some {
                    r == Err::<(), _>(KError::AlreadyMapped) && final(self)@ == old(self)@
                } else {
                    &&& r is Ok
                    &&& final(self)@ == old(self)@.with(
                        object,
                        MemoryObjectView {
                            attached: Some(attachment),
                            last_attachment: Some((attachment.device, attachment.address)),
                            ..o
                        },
                    )
                },
            },
    {
        match self.entry(object) {
            None => {
                return Err(KError::BadHandle);
            },
            Some(e) => {
                if e.attached.is_some() {
                    return Err(KError::AlreadyMapped);
                }
            },
        }
        if let Some(e) = self.entry_mut(object) {
            let ghost o = (*e)@;
            e.last_attachment = Some((attachment.device, attachment.address));
            e.attached = Some(attachment);
            assert((*e)@ =~= MemoryObjectView {
                attached: Some(attachment),
                last_attachment: Some((attachment.device, attachment.address)),
                ..o
            });
        }
        Ok(())
    }

    /// The address this object was last reachable at from `device`, if it has
    /// been attached there before and that lease has not ended since.
    pub fn remembered_address(&self, object: ObjectId, device: ObjectId) -> (r: Option<u64>)
        requires
            self.wf(),
        ensures
            match r {
                Some(a) => self@.find(object) matches Some(o) && o.last_attachment == Some(
                    (device, a),
                ),
                None => self@.find(object) matches Some(o) ==> (o.last_attachment matches Some(l)
                    ==> l.0 != device),
            },
    {
        match self.entry(object) {
            None => None,
            Some(e) => match e.last_attachment {
                None => None,
                Some((at, address)) => if at == device {
                    Some(address)
                } else {
                    None
                },
            },
        }
    }

    /// Forgets that `object` was ever attached to a device, so a later attach
    /// takes a fresh address.
    pub fn forget_last_attachment(&mut self, object: ObjectId)
        requires
            old(self).wf(),
        ensures
            final(self).wf(),
            final(self)@ == match old(self)@.find(object) {
                Some(o) => old(self)@.with(
                    object,
                    MemoryObjectView { last_attachment: None, ..o },
                ),
                None => old(self)@,
            },
    {
        if let Some(e) = self.entry_mut(object) {
            let ghost o = (*e)@;
            e.last_attachment = None;
            assert((*e)@ =~= MemoryObjectView { last_attachment: None, ..o });
        }
    }

    /// Forgets `object`'s attachment and returns what it was, or `None` when it
    /// had none. Unmapping is the caller's.
    pub fn detach(&mut self, object: ObjectId) -> (r: Option<Attachment>)
        requires
            old(self).wf(),
        ensures
            final(self).wf(),
            match old(self)@.find(object) {
                Some(o) => {
                    &&& r == o.attached
                    &&& final(self)@ == old(self)@.with(
                        object,
                        MemoryObjectView { attached: None, ..o },
                    )
                },
                None => r is None && final(self)@ == old(self)@,
            },
    {
        let mut was: Option<Attachment> = None;
        if let Some(e) = self.entry_mut(object) {
            let ghost o = (*e)@;
            was = e.attached;
            e.attached = None;
            assert((*e)@ =~= MemoryObjectView { attached: None, ..o });
        }
        was
    }

    /// Every attached object a given device can reach, written into `out`.
    /// Returns how many.
    pub fn objects_attached_to(&self, device: ObjectId, out: &mut [ObjectId]) -> (n: usize)
        requires
            self.wf(),
        ensures
            filled(old(out)@, final(out)@, n as int, listed(self@.objects, reachable_by(device))),
    {
        let mut n: usize = 0;
        let mut i: usize = 0;
        let ghost objects = self@.objects;
        let ghost p = reachable_by(device);
        proof {
            lemma_listing_starts(out@, objects, p);
        }
        while i < MAX_MEMORY_OBJECTS
            invariant
                self.wf(),
                objects == self@.objects,
                p == reachable_by(device),
                i <= MAX_MEMORY_OBJECTS,
                filled(old(out)@, out@, n as int, listed(objects.take(i as int), p)),
            decreases MAX_MEMORY_OBJECTS - i,
        {
            proof {
                assert(objects[i as int] == memory_view(self.objects@[i as int]));
                lemma_listing_steps(old(out)@, out@, n as int, objects, p, i as int);
            }
            if let Some(e) = &self.objects[i] {
                if let Some(a) = e.attached {
                    if a.device == device && n < out.len() {
                        out[n] = e.object;
                        n += 1;
                    }
                }
            }
            i += 1;
        }
        assert(objects.take(i as int) =~= objects);
        n
    }
}

/// The objects with every attachment to `device` forgotten, and the address it
/// was at with it.
pub open spec fn detached_from(
    objects: Seq<Option<MemoryObjectView>>,
    device: ObjectId,
) -> Seq<Option<MemoryObjectView>> {
    Seq::new(
        objects.len(),
        |i: int|
            match objects[i] {
                Some(o) => if reachable_by(device)(o) {
                    Some(MemoryObjectView { attached: None, last_attachment: None, ..o })
                } else {
                    Some(o)
                },
                None => None,
            },
    )
}

impl MemoryTable {
    /// Forgets every attachment to `device` without unmapping, and the address
    /// each was at: for when its translations are already gone and its whole
    /// range belongs to whoever leases it next.
    pub fn forget_attachments_to(&mut self, device: ObjectId)
        requires
            old(self).wf(),
        ensures
            final(self).wf(),
            final(self)@ == (MemoryView {
                objects: detached_from(old(self)@.objects, device),
                ..old(self)@
            }),
    {
        let ghost v = self@;
        let ghost done = detached_from(v.objects, device);
        let mut i: usize = 0;
        while i < MAX_MEMORY_OBJECTS
            invariant
                v.wf(),
                done == detached_from(v.objects, device),
                i <= MAX_MEMORY_OBJECTS,
                self@.objects.len() == MAX_MEMORY_OBJECTS,
                self@.slots == v.slots,
                self@.taken == v.taken,
                self@.next_id == v.next_id,
                forall|j: int|
                    0 <= j < MAX_MEMORY_OBJECTS ==> #[trigger] self@.objects[j] == (if j < i {
                        done[j]
                    } else {
                        v.objects[j]
                    }),
            decreases MAX_MEMORY_OBJECTS - i,
        {
            let ghost before = self@;
            assert(self@.objects[i as int] == v.objects[i as int]);
            assert(self@.objects[i as int] == memory_view(self.objects@[i as int]));
            let hit: bool = match &self.objects[i] {
                Some(e) => match e.attached {
                    Some(a) => a.device == device,
                    None => false,
                },
                None => false,
            };
            if hit {
                match &mut self.objects[i] {
                    Some(e) => {
                        let ghost o = (*e)@;
                        e.attached = None;
                        e.last_attachment = None;
                        assert((*e)@ =~= MemoryObjectView {
                            attached: None,
                            last_attachment: None,
                            ..o
                        });
                    },
                    None => {},
                }
                assert(self@.objects =~= before.objects.update(i as int, done[i as int]));
            }
            i += 1;
        }
        assert(self@ =~= MemoryView { objects: done, ..v });
        proof {
            lemma_detached_wf(v, device);
        }
    }
}

/// Forgetting attachments keeps the table sound.
proof fn lemma_detached_wf(v: MemoryView, device: ObjectId)
    requires
        v.wf(),
    ensures
        (MemoryView { objects: detached_from(v.objects, device), ..v }).wf(),
{
    let w = MemoryView { objects: detached_from(v.objects, device), ..v };
    assert forall|i: int| 0 <= i < MAX_MEMORY_OBJECTS implies ((#[trigger] w.objects[i]) matches Some(
        o,
    ) ==> o.wf() && o.object.0 < w.next_id) by {
        assert(v.objects[i] matches Some(o) ==> o.wf());
    }
    assert forall|a: int, b: int|
        0 <= a < b < MAX_MEMORY_OBJECTS && (#[trigger] w.objects[a]) is Some && (
        #[trigger] w.objects[b]) is Some implies apart(w.objects[a]->0, w.objects[b]->0) by {
        assert(v.objects[a] is Some && v.objects[b] is Some);
        assert(apart(v.objects[a]->0, v.objects[b]->0));
    }
    assert forall|s: int| 0 <= s < MAX_FRAME_SLOTS implies (#[trigger] w.taken[s]
        <==> w.owned_slot(s)) by {
        assert(v.taken[s] <==> v.owned_slot(s));
        if v.owned_slot(s) {
            let k = choose|k: int|
                0 <= k < v.objects.len() && (#[trigger] v.objects[k]) is Some
                    && v.objects[k]->0.covers(s);
            assert(w.objects[k] is Some && w.objects[k]->0.covers(s));
        }
        if w.owned_slot(s) {
            let k = choose|k: int|
                0 <= k < w.objects.len() && (#[trigger] w.objects[k]) is Some
                    && w.objects[k]->0.covers(s);
            assert(v.objects[k] is Some && v.objects[k]->0.covers(s));
        }
    }
}

/// The frame an eviction of `object`'s page at `offset` would hand back, if it
/// is not refused.
pub open spec fn evicted(v: MemoryView, object: ObjectId, offset: u64) -> Option<PhysFrame> {
    match v.find(object) {
        None => None,
        Some(o) => if o.cache.is_dirty(offset) || offset as int / FRAME_SIZE as int >= o.pages {
            None
        } else {
            v.slots[o.base + offset as int / FRAME_SIZE as int]
        },
    }
}

/// Why page `page` of `object` may not be supplied, if it may not.
pub open spec fn supply_refusal(v: MemoryView, object: ObjectId, page: int) -> Option<KError> {
    match v.find(object) {
        None => Some(KError::BadHandle),
        Some(o) => if o.pager is None {
            Some(KError::InvalidMapping)
        } else if page >= o.pages {
            Some(KError::InvalidArgument)
        } else if v.slots[o.base + page] is Some {
            Some(KError::AlreadyMapped)
        } else {
            None
        },
    }
}

/// `offset` is the lowest dirty page.
pub open spec fn lowest_dirty(c: CacheView, offset: u64) -> bool {
    &&& c.is_dirty(offset)
    &&& forall|i: int|
        0 <= i < c.pages.len() && dirty()(#[trigger] c.pages[i]) ==> offset <= c.pages[i]->0.offset
}

/// The predicate of an id other than `id`.
pub open spec fn other_than(id: ObjectId) -> spec_fn(ObjectId) -> bool {
    |h: ObjectId| h != id
}

/// Writing a slot inside a live run keeps the table sound.
proof fn lemma_slot_write(v: MemoryView, at: int, to: Option<PhysFrame>, object: ObjectId)
    requires
        v.wf(),
        v.find(object) is Some,
        v.find(object)->0.covers(at),
        0 <= at < MAX_FRAME_SLOTS,
    ensures
        (MemoryView { slots: v.slots.update(at, to), ..v }).wf(),
{
    let w = MemoryView { slots: v.slots.update(at, to), ..v };
    slots::lemma_first(v.objects, named(object));
    assert(v.objects[v.slot(object)] is Some);
    assert(v.owned_slot(at));
    assert(v.taken[at]);
    assert forall|s: int| 0 <= s < MAX_FRAME_SLOTS implies (#[trigger] w.taken[s]
        <==> w.owned_slot(s)) by {
        assert(v.taken[s] <==> v.owned_slot(s));
        assert(w.objects == v.objects);
    }
    assert forall|s: int| 0 <= s < MAX_FRAME_SLOTS && !#[trigger] w.taken[s] implies w.slots[s] is None by {
        assert(!v.taken[s]);
    }
}

/// A filtered list of distinct ids has distinct ids.
proof fn lemma_filter_distinct(s: Seq<ObjectId>, p: spec_fn(ObjectId) -> bool)
    requires
        s.no_duplicates(),
    ensures
        s.filter(p).no_duplicates(),
    decreases s.len(),
{
    reveal(Seq::filter);
    if s.len() > 0 {
        let rest = s.drop_last();
        assert(rest.no_duplicates());
        lemma_filter_distinct(rest, p);
        if p(s.last()) {
            let f = rest.filter(p);
            assert forall|i: int| 0 <= i < f.len() implies f[i] != s.last() by {
                if f[i] == s.last() {
                    assert(f.contains(s.last()));
                    rest.lemma_filter_contains_rev(p, s.last());
                    let k = choose|k: int| 0 <= k < rest.len() && rest[k] == s.last();
                    assert(s[k] == s[s.len() - 1]);
                }
            }
        }
    }
}

/// `ids` without `id`, the order of the rest kept.
fn without_id(ids: &Vec<ObjectId>, id: ObjectId) -> (kept: Vec<ObjectId>)
    ensures
        kept@ == ids@.filter(other_than(id)),
{
    let mut kept: Vec<ObjectId> = Vec::new();
    let mut i: usize = 0;
    let ghost p = other_than(id);
    assert(ids@.take(0).filter(p) =~= Seq::<ObjectId>::empty()) by {
        reveal(Seq::filter);
    }
    while i < ids.len()
        invariant
            i <= ids@.len(),
            p == other_than(id),
            kept@ == ids@.take(i as int).filter(p),
        decreases ids@.len() - i,
    {
        proof {
            assert(ids@.take(i + 1) =~= ids@.take(i as int).push(ids@[i as int]));
            ids@.take(i as int).lemma_filter_push(ids@[i as int], p);
        }
        if ids[i] != id {
            kept.push(ids[i]);
        }
        i += 1;
    }
    assert(ids@.take(i as int) =~= ids@);
    kept
}

/// The frames present in a run, in order.
fn present_frames(run: &Vec<Option<PhysFrame>>) -> (frames: Vec<PhysFrame>)
    ensures
        frames@ == present(run@),
{
    let mut frames: Vec<PhysFrame> = Vec::new();
    let mut i: usize = 0;
    assert(present(run@.take(0)) =~= Seq::<PhysFrame>::empty());
    while i < run.len()
        invariant
            i <= run@.len(),
            frames@ == present(run@.take(i as int)),
        decreases run@.len() - i,
    {
        proof {
            assert(run@.take(i + 1).drop_last() =~= run@.take(i as int));
            assert(run@.take(i + 1).last() == run@[i as int]);
        }
        if let Some(f) = run[i] {
            frames.push(f);
        }
        i += 1;
    }
    assert(run@.take(i as int) =~= run@);
    frames
}

/// A listing is no longer than the table.
pub proof fn lemma_listed_fits(
    objects: Seq<Option<MemoryObjectView>>,
    p: spec_fn(MemoryObjectView) -> bool,
)
    ensures
        listed(objects, p).len() <= objects.len(),
    decreases objects.len(),
{
    if objects.len() > 0 {
        lemma_listed_fits(objects.drop_last(), p);
    }
}

/// A listing starts empty.
proof fn lemma_listing_starts(
    before: Seq<ObjectId>,
    objects: Seq<Option<MemoryObjectView>>,
    p: spec_fn(MemoryObjectView) -> bool,
)
    ensures
        filled(before, before, 0, listed(objects.take(0), p)),
{
    let list = listed(objects.take(0), p);
    assert(list =~= Seq::<ObjectId>::empty());
    assert(before =~= list.take(0) + before.skip(0));
}

/// One step of a listing: the next matching object goes into the next place,
/// while there is one.
proof fn lemma_listing_steps(
    before: Seq<ObjectId>,
    out: Seq<ObjectId>,
    n: int,
    objects: Seq<Option<MemoryObjectView>>,
    p: spec_fn(MemoryObjectView) -> bool,
    i: int,
)
    requires
        0 <= i < objects.len(),
        filled(before, out, n, listed(objects.take(i), p)),
    ensures
        out.len() == before.len(),
        0 <= n <= out.len(),
        match objects[i] {
            Some(o) => if p(o) && n < out.len() {
                filled(before, out.update(n, o.object), n + 1, listed(objects.take(i + 1), p))
            } else {
                filled(before, out, n, listed(objects.take(i + 1), p))
            },
            None => filled(before, out, n, listed(objects.take(i + 1), p)),
        },
{
    let list = listed(objects.take(i), p);
    let next = listed(objects.take(i + 1), p);
    assert(objects.take(i + 1).drop_last() =~= objects.take(i));
    assert(objects.take(i + 1).last() == objects[i]);
    if let Some(o) = objects[i] {
        if p(o) {
            assert(next == list.push(o.object));
            if n < out.len() {
                assert(list.take(n) =~= list);
                assert(out.update(n, o.object) =~= next.take(n + 1) + before.skip(n + 1));
            } else {
                assert(next.take(n) =~= list.take(n));
            }
        }
    }
}

/// An object whose frames stay because a device can still reach them.
#[derive(Clone, Copy, PartialEq, Eq, Debug, Structural)]
pub struct DestroyRefused {
    pub cause: u64,
    pub object: ObjectId,
    pub device: ObjectId,
    pub address: u64,
}

/// What a create of `pages` pages that drew `frames` asks of the frame source:
/// the draws, and, unless it succeeds, the refused one if there was one and every
/// frame back.
pub open spec fn create_asks(frames: Seq<PhysFrame>, pages: int, ok: bool) -> Seq<FrameOp> {
    if ok {
        draws(frames)
    } else if frames.len() < pages {
        draws(frames) + seq![FrameOp::Refused] + frees(frames)
    } else {
        draws(frames) + frees(frames)
    }
}

/// What a create that got past its checks does: it draws `frames` and clears
/// each of them. It succeeds exactly when it drew as many as it wanted and
/// they are where they had to be; otherwise it gives every one back and leaves
/// the table as it was.
pub open spec fn created(
    v: MemoryView,
    after: MemoryView,
    zeroed: Seq<PhysFrame>,
    zeroed_after: Seq<PhysFrame>,
    owner: ObjectId,
    pages: int,
    placement: Placement,
    frames: Seq<PhysFrame>,
    r: Result<ObjectId, KError>,
) -> bool {
    let run = frames.map_values(|f: PhysFrame| Some(f));
    let base = first_fit(v.taken, pages)->0;
    &&& frames.len() <= pages
    &&& zeroed_after == zeroed + frames
    &&& match r {
        Ok(object) => {
            &&& frames.len() == pages
            &&& satisfies(placement, run)
            &&& object == ObjectId(v.next_id)
            &&& after == v.added(
                MemoryObjectView::backed(object, owner, base, pages, placement),
                run,
            )
        },
        Err(e) => {
            &&& e == KError::OutOfMemory
            &&& frames.len() < pages || !satisfies(placement, run)
            &&& after == v
        },
    }
}

/// The frames present in a run whose front is `frames` and whose rest is empty.
proof fn lemma_present_prefix(run: Seq<Option<PhysFrame>>, frames: Seq<PhysFrame>)
    requires
        frames.len() <= run.len(),
        forall|i: int| 0 <= i < frames.len() ==> #[trigger] run[i] == Some(frames[i]),
        forall|i: int| frames.len() <= i < run.len() ==> (#[trigger] run[i]) is None,
    ensures
        present(run) == frames,
    decreases run.len(),
{
    if run.len() > 0 {
        let rest = run.drop_last();
        if frames.len() == run.len() {
            assert(frames =~= frames.drop_last().push(frames.last()));
            lemma_present_prefix(rest, frames.drop_last());
        } else {
            lemma_present_prefix(rest, frames);
        }
    } else {
        assert(frames =~= Seq::<PhysFrame>::empty());
    }
}

impl Default for MemoryTable {
    fn default() -> (t: MemoryTable)
        ensures
            t.wf(),
            t@ == MemoryView::fresh(),
    {
        MemoryTable::new()
    }
}

/// No two objects share a frame slot: what one object's pages hold is never
/// another's.
pub proof fn law_runs_are_disjoint(v: MemoryView, a: ObjectId, b: ObjectId, s: int)
    requires
        v.wf(),
        v.find(a) is Some,
        v.find(b) is Some,
        a != b,
    ensures
        !(v.find(a)->0.covers(s) && v.find(b)->0.covers(s)),
{
    slots::lemma_first(v.objects, named(a));
    slots::lemma_first(v.objects, named(b));
    let i = v.slot(a);
    let j = v.slot(b);
    assert(v.objects[i] is Some && v.objects[j] is Some);
    if i < j {
        assert(apart(v.objects[i]->0, v.objects[j]->0));
    } else {
        assert(apart(v.objects[j]->0, v.objects[i]->0));
    }
}

/// Nothing leaks: destroying an object that was just made gives its run and
/// its table slot back, and only the id counter has moved.
pub proof fn law_create_then_destroy_restores_the_pool(
    v: MemoryView,
    o: MemoryObjectView,
    frames: Seq<Option<PhysFrame>>,
)
    requires
        v.wf(),
        v.vacancy() < MAX_MEMORY_OBJECTS,
        v.next_id < u32::MAX,
        o.wf(),
        o.object.0 == v.next_id,
        frames.len() == o.pages,
        fits(v.taken, o.pages, o.base),
    ensures
        v.added(o, frames).find(o.object) == Some(o),
        v.added(o, frames).slot(o.object) == v.vacancy(),
        v.added(o, frames).removed(v.vacancy()) == (MemoryView {
            next_id: (v.next_id + 1) as u32,
            ..v
        }),
{
    let w = v.added(o, frames);
    slots::lemma_first(v.objects, slots::free::<MemoryObjectView>());
    assert forall|j: int| 0 <= j < v.vacancy() implies !named(o.object)(#[trigger] w.objects[j]) by {
        assert(v.objects[j] matches Some(p) ==> p.object.0 < v.next_id);
    }
    slots::lemma_first_is(w.objects, named(o.object), v.vacancy());
    assert forall|i: int| o.base <= i < o.base + o.pages implies #[trigger] v.slots[i] is None by {
        assert(!v.taken[i]);
    }
    assert(w.removed(v.vacancy()) =~= MemoryView { next_id: (v.next_id + 1) as u32, ..v });
}

/// An id is never issued twice: a new object's id is not any live object's,
/// and no removal brings an old one back.
pub proof fn law_ids_are_never_reused(v: MemoryView, object: ObjectId, i: int)
    requires
        v.wf(),
        v.find(object) is Some,
        0 <= i < MAX_MEMORY_OBJECTS,
        v.objects[i] is Some,
    ensures
        object != ObjectId(v.next_id),
        v.removed(i).next_id == v.next_id,
{
    slots::lemma_first(v.objects, named(object));
    assert(v.objects[v.slot(object)] is Some);
}

/// Classification only strengthens: whatever a classify that is not refused
/// leaves, it is at least as strong as before.
pub proof fn law_classification_is_monotone(v: MemoryView, object: ObjectId, class: MemoryClass)
    requires
        v.wf(),
        v.find(object) is Some,
        strength(class) >= strength(v.find(object)->0.class),
    ensures
        v.with(object, MemoryObjectView { class, ..v.find(object)->0 }).find(object) is Some,
        strength(
            v.with(object, MemoryObjectView { class, ..v.find(object)->0 }).find(
                object,
            )->0.class,
        ) >= strength(v.find(object)->0.class),
{
    slots::lemma_first(v.objects, named(object));
    lemma_with(v, object, MemoryObjectView { class, ..v.find(object)->0 });
}

/// A share and its release cancel: a new holder that lets go leaves the
/// holders as they were, so the frames go with the last of them and no sooner.
pub proof fn law_share_then_release_cancels(o: MemoryObjectView, holder: ObjectId)
    requires
        o.wf(),
        !o.holders.contains(holder),
    ensures
        o.holders.push(holder).filter(other_than(holder)) == o.holders,
        o.holders.len() > 0 ==> o.holders.push(holder).filter(other_than(holder)).len() > 0,
        seq![holder].filter(other_than(holder)).len() == 0,
{
    let p = other_than(holder);
    o.holders.lemma_filter_push(holder, p);
    lemma_filter_keeps_all(o.holders, p);
    reveal(Seq::filter);
    assert(seq![holder].drop_last() =~= Seq::<ObjectId>::empty());
    assert(Seq::<ObjectId>::empty().filter(p) =~= Seq::<ObjectId>::empty());
}

/// Filtering by what every element satisfies changes nothing.
proof fn lemma_filter_keeps_all(s: Seq<ObjectId>, p: spec_fn(ObjectId) -> bool)
    requires
        forall|i: int| 0 <= i < s.len() ==> p(#[trigger] s[i]),
    ensures
        s.filter(p) == s,
    decreases s.len(),
{
    reveal(Seq::filter);
    if s.len() > 0 {
        lemma_filter_keeps_all(s.drop_last(), p);
        assert(s =~= s.drop_last().push(s.last()));
    } else {
        assert(s.filter(p) =~= s);
    }
}

/// An object is found by its id, in the one place that has it, and not found
/// only when no place does.
pub proof fn law_a_memory_object_is_found_by_its_id(v: MemoryView, object: ObjectId)
    requires
        v.wf(),
    ensures
        match v.find(object) {
            Some(o) => o.object == object && 0 <= v.slot(object) < MAX_MEMORY_OBJECTS
                && v.objects[v.slot(object)] == Some(o),
            None => forall|k: int|
                0 <= k < MAX_MEMORY_OBJECTS ==> (#[trigger] v.objects[k] matches Some(o)
                    ==> o.object != object),
        },
        0 <= v.vacancy() <= MAX_MEMORY_OBJECTS,
        v.vacancy() < MAX_MEMORY_OBJECTS ==> v.objects[v.vacancy()] is None,
        v.vacancy() == MAX_MEMORY_OBJECTS ==> forall|k: int|
            0 <= k < MAX_MEMORY_OBJECTS ==> #[trigger] v.objects[k] is Some,
{
    slots::lemma_first(v.objects, named(object));
    slots::lemma_first(v.objects, slots::free::<MemoryObjectView>());
    if v.find(object) is None {
        assert forall|k: int|
            0 <= k < MAX_MEMORY_OBJECTS implies (#[trigger] v.objects[k] matches Some(o)
            ==> o.object != object) by {
            assert(!named(object)(v.objects[k]));
        }
    }
    if v.vacancy() == MAX_MEMORY_OBJECTS {
        assert forall|k: int| 0 <= k < MAX_MEMORY_OBJECTS implies #[trigger] v.objects[k]
            is Some by {
            assert(!slots::free::<MemoryObjectView>()(v.objects[k]));
        }
    }
}

/// A change to an object is a change to that object: it is found as it was
/// changed, every other object as it was, and no frame moves.
pub proof fn law_a_changed_object_is_the_only_one(
    v: MemoryView,
    object: ObjectId,
    o: MemoryObjectView,
    other: ObjectId,
)
    requires
        v.wf(),
        v.find(object) is Some,
        o.object == object,
        other != object,
    ensures
        v.with(object, o).find(object) == Some(o),
        v.with(object, o).find(other) == v.find(other),
        v.with(object, o).slots == v.slots,
        v.with(object, o).taken == v.taken,
        v.with(object, o).next_id == v.next_id,
{
    let w = v.with(object, o);
    let i = v.slot(object);
    slots::lemma_first(v.objects, named(object));
    slots::lemma_first(v.objects, named(other));
    assert forall|k: int| 0 <= k < i implies !named(object)(#[trigger] w.objects[k]) by {
        assert(!named(object)(v.objects[k]));
    }
    slots::lemma_first_is(w.objects, named(object), i);
    let j = v.slot(other);
    assert forall|k: int| 0 <= k < j implies !named(other)(#[trigger] w.objects[k]) by {
        assert(!named(other)(v.objects[k]));
    }
    slots::lemma_first_is(w.objects, named(other), j);
}

/// A new object is what it was asked to be: held by its owner alone, at its own
/// place, of no class, reached by no device, faulted by nothing and clean; a
/// paged one is served by its owner through its pager.
pub proof fn law_a_new_memory_object_is_its_owners(
    object: ObjectId,
    owner: ObjectId,
    base: int,
    pages: int,
    placement: Placement,
    pager: ObjectId,
)
    ensures
        ({
            let o = MemoryObjectView::backed(object, owner, base, pages, placement);
            let p = MemoryObjectView::paged(object, owner, base, pages, pager);
            &&& o.object == object && p.object == object
            &&& o.holders == seq![owner] && p.holders == seq![owner]
            &&& o.base == base && o.pages == pages && p.base == base && p.pages == pages
            &&& o.class == MemoryClass::Unclassified && p.class == MemoryClass::Unclassified
            &&& o.placement == placement
            &&& o.attached is None && p.attached is None
            &&& o.last_attachment is None && p.last_attachment is None
            &&& o.pager is None && o.served_by is None
            &&& p.pager == Some(pager) && p.served_by == Some(owner)
            &&& !o.faulted && !p.faulted
            &&& !o.cache.faulted && !p.cache.faulted
            &&& o.cache.dirty_limit == DIRTY_LIMIT && p.cache.dirty_limit == DIRTY_LIMIT
            &&& !p.placement.physically_contiguous && !p.placement.device_contiguous
            &&& p.placement.alignment == 0 && p.placement.address_limit == 0
        }),
{
}

/// Frames meet a placement when the first is aligned as asked, each follows the
/// one before where they must be contiguous, and none ends beyond the limit; and
/// only then.
pub proof fn law_a_placement_is_met_frame_by_frame(p: Placement, frames: Seq<Option<PhysFrame>>)
    requires
        frames.len() > 0,
        forall|i: int| 0 <= i < frames.len() ==> #[trigger] frames[i] is Some,
    ensures
        satisfies(p, frames) <==> {
            &&& p.alignment != 0 ==> (frames[0]->0).0 as int % p.alignment as int == 0
            &&& p.physically_contiguous ==> forall|i: int|
                0 <= i < frames.len() ==> ((#[trigger] frames[i])->0).0 == (frames[0]->0).0 + i
                    * FRAME_SIZE
            &&& p.address_limit != 0 ==> forall|i: int|
                0 <= i < frames.len() ==> ((#[trigger] frames[i])->0).0 + FRAME_SIZE - 1
                    <= p.address_limit
        },
        !satisfies(p, Seq::empty()),
{
    if satisfies(p, frames) {
        if p.physically_contiguous {
            assert forall|i: int| 0 <= i < frames.len() implies ((#[trigger] frames[i])->0).0
                == (frames[0]->0).0 + i * FRAME_SIZE by {
                assert(base_of(frames[i]) == base_of(frames[0]) + i * FRAME_SIZE);
            }
        }
        if p.address_limit != 0 {
            assert forall|i: int| 0 <= i < frames.len() implies ((#[trigger] frames[i])->0).0
                + FRAME_SIZE - 1 <= p.address_limit by {
                assert(frames[i] is Some);
                assert(base_of(frames[i]) + FRAME_SIZE - 1 <= p.address_limit);
            }
        }
    }
}

/// A run of slots is the lowest one that is wholly free, and there is none only
/// when no run is.
pub proof fn law_the_lowest_free_run_is_taken(taken: Seq<bool>, pages: int, at: int)
    requires
        pages > 0,
        0 <= at,
    ensures
        match first_fit(taken, pages) {
            Some(base) => {
                &&& 0 <= base && base + pages <= taken.len()
                &&& forall|i: int| base <= i < base + pages ==> !#[trigger] taken[i]
                &&& at < base && at + pages <= taken.len() ==> exists|i: int|
                    at <= i < at + pages && #[trigger] taken[i]
            },
            None => at + pages <= taken.len() ==> exists|i: int|
                at <= i < at + pages && #[trigger] taken[i],
        },
{
    lemma_lowest_from(taken, pages, 0, at);
}

proof fn lemma_lowest_from(taken: Seq<bool>, pages: int, from: int, at: int)
    requires
        pages > 0,
        0 <= from <= at,
    ensures
        match fit_from(taken, pages, from) {
            Some(base) => {
                &&& from <= base && base + pages <= taken.len()
                &&& forall|i: int| base <= i < base + pages ==> !#[trigger] taken[i]
                &&& at < base && at + pages <= taken.len() ==> exists|i: int|
                    at <= i < at + pages && #[trigger] taken[i]
            },
            None => at + pages <= taken.len() ==> exists|i: int|
                at <= i < at + pages && #[trigger] taken[i],
        },
    decreases taken.len() - from,
{
    if from < taken.len() && !fits(taken, pages, from) {
        if from < at {
            lemma_lowest_from(taken, pages, from + 1, at);
        } else {
            lemma_lowest_from(taken, pages, from + 1, at + 1);
        }
    }
}

/// An added object takes its run and nobody else's, puts its frames there in
/// order, and its id is not given out again; a removed one gives its run back.
pub proof fn law_an_object_takes_its_own_run(
    v: MemoryView,
    o: MemoryObjectView,
    frames: Seq<Option<PhysFrame>>,
    s: int,
    k: int,
)
    requires
        v.wf(),
        v.vacancy() < MAX_MEMORY_OBJECTS,
        0 <= o.base,
        o.base + o.pages <= MAX_FRAME_SLOTS,
        frames.len() == o.pages,
        v.next_id < u32::MAX,
        0 <= s < MAX_FRAME_SLOTS,
        0 <= k < MAX_MEMORY_OBJECTS,
    ensures
        ({
            let w = v.added(o, frames);
            &&& w.next_id == v.next_id + 1
            &&& v.objects[v.vacancy()] is None
            &&& w.objects[v.vacancy()] == Some(o)
            &&& k != v.vacancy() ==> w.objects[k] == v.objects[k]
            &&& o.base <= s < o.base + o.pages ==> w.taken[s] && w.slots[s] == frames[s - o.base]
            &&& !(o.base <= s < o.base + o.pages) ==> w.taken[s] == v.taken[s] && w.slots[s]
                == v.slots[s]
            &&& w.taken.len() == MAX_FRAME_SLOTS && w.slots.len() == MAX_FRAME_SLOTS
        }),
{
    slots::lemma_first(v.objects, slots::free::<MemoryObjectView>());
}

/// A removed object is gone, and its run with it; every other object keeps what
/// it has.
pub proof fn law_a_removed_object_gives_its_run_back(v: MemoryView, i: int, s: int, k: int)
    requires
        v.wf(),
        0 <= i < MAX_MEMORY_OBJECTS,
        v.objects[i] is Some,
        0 <= s < MAX_FRAME_SLOTS,
        0 <= k < MAX_MEMORY_OBJECTS,
        k != i,
    ensures
        ({
            let o = v.objects[i]->0;
            let w = v.removed(i);
            &&& w.objects[i] is None
            &&& w.objects[k] == v.objects[k]
            &&& o.base <= s < o.base + o.pages ==> !w.taken[s] && w.slots[s] is None
            &&& !(o.base <= s < o.base + o.pages) ==> w.taken[s] == v.taken[s] && w.slots[s]
                == v.slots[s]
            &&& w.next_id == v.next_id
        }),
{
}

/// An object's frames are those in its run, in order, each as often as it is
/// there.
pub proof fn law_an_objects_frames_are_those_of_its_run(run: Seq<Option<PhysFrame>>, f: PhysFrame)
    ensures
        present(run).contains(f) <==> exists|i: int|
            0 <= i < run.len() && #[trigger] run[i] == Some(f),
        present(run).len() == slots::count(run, slots::used::<PhysFrame>()),
    decreases run.len(),
{
    if run.len() > 0 {
        let rest = run.drop_last();
        let d = present(rest);
        let all = present(run);
        law_an_objects_frames_are_those_of_its_run(rest, f);
        if all.contains(f) {
            let k = choose|k: int| 0 <= k < all.len() && all[k] == f;
            if k < d.len() {
                assert(d[k] == f);
                assert(d.contains(f));
                let i = choose|i: int| 0 <= i < rest.len() && #[trigger] rest[i] == Some(f);
                assert(run[i] == Some(f));
            } else {
                assert(run[run.len() - 1] == Some(f));
            }
        }
        if exists|i: int| 0 <= i < run.len() && #[trigger] run[i] == Some(f) {
            let i = choose|i: int| 0 <= i < run.len() && #[trigger] run[i] == Some(f);
            if i < rest.len() {
                assert(rest[i] == Some(f));
                let k = choose|k: int| 0 <= k < d.len() && d[k] == f;
                assert(all[k] == f);
            } else {
                assert(all.last() == f);
            }
        }
    }
}

/// The objects somebody holds, or a device reaches, are listed exactly: an id is
/// in the list just when an object of that id is one of them.
pub proof fn law_objects_are_listed_exactly(
    objects: Seq<Option<MemoryObjectView>>,
    holder: ObjectId,
    id: ObjectId,
)
    ensures
        listed(objects, held_by(holder)).contains(id) <==> exists|i: int|
            0 <= i < objects.len() && (#[trigger] objects[i] matches Some(o) && o.object == id
                && exists|k: int| 0 <= k < o.holders.len() && #[trigger] o.holders[k] == holder),
        listed(objects, reachable_by(holder)).contains(id) <==> exists|i: int|
            0 <= i < objects.len() && (#[trigger] objects[i] matches Some(o) && o.object == id && (
            o.attached matches Some(a) && a.device == holder)),
{
    lemma_listed(objects, held_by(holder), id);
    lemma_listed(objects, reachable_by(holder), id);
    if listed(objects, held_by(holder)).contains(id) {
        let i = choose|i: int|
            0 <= i < objects.len() && (#[trigger] objects[i] matches Some(o) && o.object == id
                && held_by(holder)(o));
        let o = objects[i]->0;
        let k = choose|k: int| 0 <= k < o.holders.len() && o.holders[k] == holder;
        assert(o.holders[k] == holder);
    }
    if exists|i: int|
        0 <= i < objects.len() && (#[trigger] objects[i] matches Some(o) && o.object == id && exists|
            k: int,
        |
            0 <= k < o.holders.len() && #[trigger] o.holders[k] == holder) {
        let i = choose|i: int|
            0 <= i < objects.len() && (#[trigger] objects[i] matches Some(o) && o.object == id
                && exists|k: int| 0 <= k < o.holders.len() && #[trigger] o.holders[k] == holder);
        assert(held_by(holder)(objects[i]->0));
    }
    if exists|i: int|
        0 <= i < objects.len() && (#[trigger] objects[i] matches Some(o) && o.object == id && (
        o.attached matches Some(a) && a.device == holder)) {
        let i = choose|i: int|
            0 <= i < objects.len() && (#[trigger] objects[i] matches Some(o) && o.object == id && (
            o.attached matches Some(a) && a.device == holder));
        assert(reachable_by(holder)(objects[i]->0));
    }
}

proof fn lemma_listed(
    objects: Seq<Option<MemoryObjectView>>,
    p: spec_fn(MemoryObjectView) -> bool,
    id: ObjectId,
)
    ensures
        listed(objects, p).contains(id) <==> exists|i: int|
            0 <= i < objects.len() && (#[trigger] objects[i] matches Some(o) && o.object == id
                && p(o)),
    decreases objects.len(),
{
    if objects.len() > 0 {
        let rest = objects.drop_last();
        let d = listed(rest, p);
        let all = listed(objects, p);
        lemma_listed(rest, p, id);
        if all.contains(id) {
            let k = choose|k: int| 0 <= k < all.len() && all[k] == id;
            if k < d.len() {
                assert(d[k] == id);
                assert(d.contains(id));
                let i = choose|i: int|
                    0 <= i < rest.len() && (#[trigger] rest[i] matches Some(o) && o.object == id
                        && p(o));
                assert(objects[i] == rest[i]);
            } else {
                assert(objects[objects.len() - 1] matches Some(o) && o.object == id && p(o));
            }
        }
        if exists|i: int|
            0 <= i < objects.len() && (#[trigger] objects[i] matches Some(o) && o.object == id && p(
                o,
            )) {
            let i = choose|i: int|
                0 <= i < objects.len() && (#[trigger] objects[i] matches Some(o) && o.object == id
                    && p(o));
            if i < rest.len() {
                assert(rest[i] == objects[i]);
                let k = choose|k: int| 0 <= k < d.len() && d[k] == id;
                assert(all[k] == id);
            } else {
                assert(all.last() == id);
            }
        }
    }
}

/// A device that goes reaches nothing afterwards, and every object another
/// device reaches, or none does, stays as it is.
pub proof fn law_a_device_that_goes_reaches_nothing(
    objects: Seq<Option<MemoryObjectView>>,
    device: ObjectId,
    i: int,
)
    requires
        0 <= i < objects.len(),
    ensures
        detached_from(objects, device).len() == objects.len(),
        objects[i] is None ==> detached_from(objects, device)[i] is None,
        objects[i] matches Some(o) ==> (detached_from(objects, device)[i] matches Some(p) && {
            let reached = o.attached matches Some(a) && a.device == device;
            &&& reached ==> p.attached is None && p.last_attachment is None
            &&& !reached ==> p == o
            &&& p.object == o.object && p.holders == o.holders && p.base == o.base
            &&& p.pages == o.pages && p.class == o.class && p.cache == o.cache
            &&& p.pager == o.pager && p.faulted == o.faulted
        }),
{
}

/// A page that is evicted is clean and inside its object, and what comes back is
/// the frame that held it.
pub proof fn law_only_a_clean_page_is_evicted(v: MemoryView, object: ObjectId, offset: u64)
    ensures
        evicted(v, object, offset) is Some ==> (v.find(object) matches Some(o) && !o.cache.is_dirty(
            offset,
        ) && (offset as int / FRAME_SIZE as int) < o.pages && evicted(v, object, offset)
            == v.slots[o.base + offset as int / FRAME_SIZE as int]),
        v.find(object) matches Some(o) && o.cache.is_dirty(offset) ==> evicted(v, object, offset)
            is None,
        v.find(object) matches Some(o) ==> (!o.cache.is_dirty(offset) && (offset as int
            / FRAME_SIZE as int) < o.pages ==> evicted(v, object, offset) == v.slots[o.base
            + offset as int / FRAME_SIZE as int]),
{
}

/// A page is supplied to a paged object, inside it, where no frame is; anything
/// else is refused for what it is.
pub proof fn law_a_supply_is_refused_for_cause(v: MemoryView, object: ObjectId, page: int)
    ensures
        v.find(object) is None ==> supply_refusal(v, object, page) == Some(KError::BadHandle),
        v.find(object) matches Some(o) ==> {
            &&& o.pager is None ==> supply_refusal(v, object, page) == Some(KError::InvalidMapping)
            &&& o.pager is Some && page >= o.pages ==> supply_refusal(v, object, page) == Some(
                KError::InvalidArgument,
            )
            &&& o.pager is Some && page < o.pages && v.slots[o.base + page] is Some
                ==> supply_refusal(v, object, page) == Some(KError::AlreadyMapped)
            &&& o.pager is Some && page < o.pages && v.slots[o.base + page] is None
                ==> supply_refusal(v, object, page) is None
        },
{
}

/// What can be reclaimed is a live paged object's clean page, what can be flushed
/// its dirty one; the lowest dirty page is dirty, and none below it is.
pub proof fn law_what_can_be_reclaimed_or_flushed(
    e: MemoryObjectView,
    c: CacheView,
    offset: u64,
    k: int,
)
    requires
        0 <= k < c.pages.len(),
    ensures
        reclaimable()(Some(e)) <==> e.pager is Some && !e.faulted && exists|i: int|
            0 <= i < e.cache.pages.len() && (#[trigger] e.cache.pages[i] matches Some(p)
                && !p.dirty),
        flushable()(Some(e)) <==> e.pager is Some && !e.faulted && exists|i: int|
            0 <= i < e.cache.pages.len() && (#[trigger] e.cache.pages[i] matches Some(p)
                && p.dirty),
        !reclaimable()(None::<MemoryObjectView>),
        !flushable()(None::<MemoryObjectView>),
        lowest_dirty(c, offset) ==> c.is_dirty(offset) && (c.pages[k] matches Some(p) ==> (
        p.dirty ==> offset <= p.offset)),
{
    if slots::any(e.cache.pages, crate::pager::clean()) {
        let i = choose|i: int|
            0 <= i < e.cache.pages.len() && crate::pager::clean()(#[trigger] e.cache.pages[i]);
        assert(e.cache.pages[i] matches Some(p) && !p.dirty);
    }
    if exists|i: int|
        0 <= i < e.cache.pages.len() && (#[trigger] e.cache.pages[i] matches Some(p) && !p.dirty) {
        let i = choose|i: int|
            0 <= i < e.cache.pages.len() && (#[trigger] e.cache.pages[i] matches Some(p)
                && !p.dirty);
        assert(crate::pager::clean()(e.cache.pages[i]));
    }
    if slots::any(e.cache.pages, dirty()) {
        let i = choose|i: int| 0 <= i < e.cache.pages.len() && dirty()(#[trigger] e.cache.pages[i]);
        assert(e.cache.pages[i] matches Some(p) && p.dirty);
    }
    if exists|i: int|
        0 <= i < e.cache.pages.len() && (#[trigger] e.cache.pages[i] matches Some(p) && p.dirty) {
        let i = choose|i: int|
            0 <= i < e.cache.pages.len() && (#[trigger] e.cache.pages[i] matches Some(p)
                && p.dirty);
        assert(dirty()(e.cache.pages[i]));
    }
    if lowest_dirty(c, offset) && dirty()(c.pages[k]) {
        assert(dirty()(c.pages[k]));
    }
}

/// A list that is handed out fills what room there is, in order, and leaves the
/// rest of it alone.
pub proof fn law_a_list_fills_what_room_there_is<T>(
    before: Seq<T>,
    out: Seq<T>,
    n: int,
    list: Seq<T>,
    i: int,
)
    requires
        filled(before, out, n, list),
        0 <= i < before.len(),
    ensures
        out.len() == before.len(),
        n <= list.len() && n <= before.len() && (n == list.len() || n == before.len()),
        i < n ==> out[i] == list[i],
        i >= n ==> out[i] == before[i],
{
}

/// A created object has a frame for each of its pages, drawn for it, cleared and
/// in order, and meets its placement; one that is refused keeps none: every frame
/// that was drawn for it goes back.
pub proof fn law_a_created_object_has_its_frames(
    v: MemoryView,
    after: MemoryView,
    zeroed: Seq<PhysFrame>,
    zeroed_after: Seq<PhysFrame>,
    owner: ObjectId,
    pages: int,
    placement: Placement,
    frames: Seq<PhysFrame>,
    r: Result<ObjectId, KError>,
    i: int,
)
    requires
        v.wf(),
        v.vacancy() < MAX_MEMORY_OBJECTS,
        1 <= pages <= MAX_OBJECT_PAGES,
        first_fit(v.taken, pages) is Some,
        v.next_id < u32::MAX,
        created(
            v,
            after,
            zeroed,
            zeroed_after,
            owner,
            pages,
            placement,
            frames,
            r,
        ),
        0 <= i < frames.len(),
    ensures
        zeroed_after.len() == zeroed.len() + frames.len(),
        zeroed_after[zeroed.len() + i] == frames[i],
        r matches Ok(object) ==> {
            &&& frames.len() == pages
            &&& object.0 == v.next_id && after.next_id == v.next_id + 1
            &&& after.objects[v.vacancy()] matches Some(o)
            &&& o.object == object && o.holders == seq![owner] && o.pages == pages
            &&& o.placement == placement && o.pager is None
            &&& after.slots[o.base + i] == Some(frames[i])
            &&& !v.taken[o.base + i] && after.taken[o.base + i]
            &&& placement.alignment != 0 ==> frames[0].0 as int % placement.alignment as int == 0
            &&& placement.physically_contiguous ==> frames[i].0 == frames[0].0 + i * FRAME_SIZE
            &&& placement.address_limit != 0 ==> frames[i].0 + FRAME_SIZE - 1
                <= placement.address_limit
        },
        r matches Err(e) ==> e == KError::OutOfMemory && after == v,
        r is Err ==> create_asks(frames, pages, false).subrange(
            create_asks(frames, pages, false).len() - frames.len(),
            create_asks(frames, pages, false).len() as int,
        )[i] == FrameOp::Freed(frames[i]),
        create_asks(frames, pages, r is Ok)[i] == FrameOp::Drew(frames[i]),
        r is Ok ==> create_asks(frames, pages, true).len() == pages,
{
    law_the_lowest_free_run_is_taken(v.taken, pages, 0);
    slots::lemma_first(v.objects, slots::free::<MemoryObjectView>());
    let run = frames.map_values(|f: PhysFrame| Some(f));
    assert(run[i] == Some(frames[i]));
    assert(run[0] == Some(frames[0]));
    if r is Ok {
        if placement.physically_contiguous {
            assert(base_of(run[i]) == base_of(run[0]) + i * FRAME_SIZE);
        }
        if placement.address_limit != 0 {
            assert(run[i] is Some && base_of(run[i]) + FRAME_SIZE - 1 <= placement.address_limit);
        }
    }
    crate::frame::law_draws_and_frees_name_their_frames(frames, i);
}

/// Protected memory is the stronger class.
pub proof fn law_protected_is_stronger()
    ensures
        strength(MemoryClass::Protected) > strength(MemoryClass::Unclassified),
{
}

} // verus!
