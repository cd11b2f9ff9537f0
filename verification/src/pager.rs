//! The kernel's side of service-backed memory: which pages of an object are
//! resident and dirty, the frames set aside for write-back, the guard against
//! pagers that wait for one another, and the supervision of late pagers.
use vstd::prelude::*;
use crate::config::{MAX_CACHED_PAGES, MAX_PAGERS};
use crate::error::KError;
use crate::slots;

verus! {

/// The result of a write marking a page dirty.
#[derive(Clone, Copy, PartialEq, Eq, Debug, Structural)]
pub enum DirtyOutcome {
    /// The page is dirty and within the object's dirty bound: grant the write.
    Marked,
    /// Marking this page dirty would exceed the dirty bound: the writer must be
    /// throttled at the write fault until a write-back drains dirty pages. The
    /// page is left clean.
    Throttle,
}

/// One resident page.
#[derive(Clone, Copy, PartialEq, Eq, Debug, Structural)]
pub struct PageEntry {
    pub offset: u64,
    pub dirty: bool,
    /// A write-back of this page is out.
    pub writing: bool,
    /// A store landed while it was.
    pub overtaken: bool,
}

/// One pager-backed object's resident and dirty page set, with a dirty ceiling.
pub struct ObjectCache {
    pages: Vec<Option<PageEntry>>,
    dirty_limit: u32,
    faulted: bool,
}

/// What an [`ObjectCache`] holds.
#[verifier::ext_equal]
pub struct CacheView {
    pub pages: Seq<Option<PageEntry>>,
    pub dirty_limit: u32,
    pub faulted: bool,
}

/// The predicate of the slot that holds the page at `offset`.
pub open spec fn page_at(offset: u64) -> spec_fn(Option<PageEntry>) -> bool {
    |o: Option<PageEntry>| o matches Some(p) && p.offset == offset
}

/// The predicate of a dirty page.
pub open spec fn dirty() -> spec_fn(Option<PageEntry>) -> bool {
    |o: Option<PageEntry>| o matches Some(p) && p.dirty
}

/// The predicate of a clean resident page.
pub open spec fn clean() -> spec_fn(Option<PageEntry>) -> bool {
    |o: Option<PageEntry>| o matches Some(p) && !p.dirty
}

/// The offsets of the dirty pages, in slot order.
pub open spec fn dirty_list(pages: Seq<Option<PageEntry>>) -> Seq<u64>
    decreases pages.len(),
{
    if pages.len() == 0 {
        Seq::empty()
    } else if dirty()(pages.last()) {
        dirty_list(pages.drop_last()).push(pages.last()->0.offset)
    } else {
        dirty_list(pages.drop_last())
    }
}

/// Whether `s` ascends.
pub open spec fn ascending(s: Seq<u64>) -> bool {
    forall|i: int, j: int| 0 <= i < j < s.len() ==> s[i] <= s[j]
}

/// `out` reports `listed` from its front, in ascending order, cut to the room
/// there is; `n` of its places are used and the others are as in `before`.
pub open spec fn reports(
    before: Seq<u64>,
    out: Seq<u64>,
    n: int,
    listed: Seq<u64>,
) -> bool {
    &&& n == if listed.len() <= before.len() {
        listed.len() as int
    } else {
        before.len() as int
    }
    &&& out.len() == before.len()
    &&& ascending(out.take(n))
    &&& out.take(n).to_multiset() == listed.take(n).to_multiset()
    &&& forall|i: int| n <= i < out.len() ==> out[i] == before[i]
}

impl CacheView {
    /// An object with nothing resident.
    pub open spec fn fresh(dirty_limit: u32) -> CacheView {
        CacheView {
            pages: slots::empty(MAX_CACHED_PAGES as nat),
            dirty_limit,
            faulted: false,
        }
    }

    /// The cache's invariant: no page is held twice, and no more pages are
    /// dirty than the ceiling allows.
    pub open spec fn wf(self) -> bool {
        &&& self.pages.len() == MAX_CACHED_PAGES
        &&& forall|i: int, j: int|
            0 <= i < j < MAX_CACHED_PAGES && (#[trigger] self.pages[i]) is Some && (
            #[trigger] self.pages[j]) is Some ==> self.pages[i]->0.offset != self.pages[j]->0.offset
        &&& self.dirty_count() <= self.dirty_limit
    }

    pub open spec fn dirty_count(self) -> nat {
        slots::count(self.pages, dirty())
    }

    /// Where the page at `offset` is, or the capacity.
    pub open spec fn slot(self, offset: u64) -> int {
        slots::first(self.pages, page_at(offset))
    }

    pub open spec fn resident(self, offset: u64) -> bool {
        self.slot(offset) < self.pages.len()
    }

    /// The resident page at `offset`.
    pub open spec fn page(self, offset: u64) -> PageEntry {
        self.pages[self.slot(offset)]->0
    }

    pub open spec fn is_dirty(self, offset: u64) -> bool {
        self.resident(offset) && self.page(offset).dirty
    }

    pub open spec fn vacancy(self) -> int {
        slots::first(self.pages, slots::free::<PageEntry>())
    }

    /// With the resident page at `offset` replaced.
    pub open spec fn with_page(self, offset: u64, p: PageEntry) -> CacheView {
        CacheView { pages: self.pages.update(self.slot(offset), Some(p)), ..self }
    }

    /// With a clean page at `offset`.
    pub open spec fn installed(self, offset: u64) -> CacheView {
        if self.resident(offset) {
            self
        } else {
            CacheView {
                pages: self.pages.update(
                    self.vacancy(),
                    Some(
                        PageEntry { offset, dirty: false, writing: false, overtaken: false },
                    ),
                ),
                ..self
            }
        }
    }

    /// Whether a store to `offset` is granted.
    pub open spec fn admits_store(self, offset: u64) -> bool {
        self.resident(offset) && (self.page(offset).dirty || self.dirty_count() < self.dirty_limit)
    }

    /// After a granted store to `offset`: dirty, and a write-back that is out
    /// is overtaken.
    pub open spec fn stored(self, offset: u64) -> CacheView {
        let p = self.page(offset);
        self.with_page(
            offset,
            PageEntry { dirty: true, overtaken: p.overtaken || p.writing, ..p },
        )
    }

    /// After the write-back of `offset` is acknowledged.
    pub open spec fn cleaned(self, offset: u64) -> CacheView {
        if self.resident(offset) {
            self.with_page(offset, PageEntry { dirty: false, ..self.page(offset) })
        } else {
            self
        }
    }

    /// After a write-back of `offset` goes out.
    pub open spec fn write_back_begun(self, offset: u64) -> CacheView {
        if self.resident(offset) {
            self.with_page(
                offset,
                PageEntry { writing: true, overtaken: false, ..self.page(offset) },
            )
        } else {
            self
        }
    }

    /// After the write-back of `offset` is answered.
    pub open spec fn write_back_ended(self, offset: u64) -> CacheView {
        if self.resident(offset) {
            self.with_page(
                offset,
                PageEntry { writing: false, overtaken: false, ..self.page(offset) },
            )
        } else {
            self
        }
    }

    /// Without the page at `offset`.
    pub open spec fn forgotten(self, offset: u64) -> CacheView {
        if self.resident(offset) {
            CacheView { pages: self.pages.update(self.slot(offset), None), ..self }
        } else {
            self
        }
    }

    /// `offset` is the lowest clean resident page.
    pub open spec fn evictable(self, offset: u64) -> bool {
        &&& self.resident(offset)
        &&& !self.page(offset).dirty
        &&& forall|i: int|
            0 <= i < self.pages.len() && clean()(#[trigger] self.pages[i]) ==> offset
                <= self.pages[i]->0.offset
    }

    /// After the pager died: nothing resident, nothing admitted.
    pub open spec fn after_fault(self) -> CacheView {
        CacheView {
            pages: slots::empty(MAX_CACHED_PAGES as nat),
            faulted: true,
            ..self
        }
    }
}

impl View for ObjectCache {
    type V = CacheView;

    closed spec fn view(&self) -> CacheView {
        CacheView {
            pages: self.pages@,
            dirty_limit: self.dirty_limit,
            faulted: self.faulted,
        }
    }
}

/// Replacing the page at `offset` by another state of it keeps the cache
/// sound, as long as the ceiling holds.
proof fn lemma_with_page(c: CacheView, offset: u64, p: PageEntry)
    requires
        c.wf(),
        c.resident(offset),
        p.offset == offset,
        p.dirty ==> c.page(offset).dirty || c.dirty_count() < c.dirty_limit,
    ensures
        c.with_page(offset, p).wf(),
        c.with_page(offset, p).slot(offset) == c.slot(offset),
{
    let d = c.with_page(offset, p);
    let at = c.slot(offset);
    slots::lemma_first(c.pages, page_at(offset));
    slots::lemma_count_update(c.pages, dirty(), at, Some(p));
    assert forall|i: int, j: int|
        0 <= i < j < MAX_CACHED_PAGES && (#[trigger] d.pages[i]) is Some && (
        #[trigger] d.pages[j]) is Some implies d.pages[i]->0.offset != d.pages[j]->0.offset by {
        assert(c.pages[i] is Some);
        assert(c.pages[j] is Some);
    }
    slots::lemma_first_is(d.pages, page_at(offset), at);
}

impl ObjectCache {
    /// The cache's invariant.
    pub open spec fn wf(&self) -> bool {
        self@.wf()
    }

    /// A cache admitting at most `dirty_limit` simultaneously dirty pages before
    /// throttling writers.
    pub fn new(dirty_limit: u32) -> (c: ObjectCache)
        ensures
            c.wf(),
            c@ == CacheView::fresh(dirty_limit),
    {
        let c = ObjectCache {
            pages: slots::empty_slots(MAX_CACHED_PAGES),
            dirty_limit,
            faulted: false,
        };
        proof {
            slots::lemma_count_zero(c@.pages, dirty());
        }
        c
    }

    /// Records that the page at `offset` is now resident and clean (the kernel
    /// side of a page-in supply). Idempotent for an already-resident page.
    /// `BadHandle` once the object is faulted; `OutOfMemory` if the cache is full.
    pub fn install(&mut self, offset: u64) -> (r: Result<(), KError>)
        requires
            old(self).wf(),
        ensures
            final(self).wf(),
            match r {
                Ok(_) => {
                    &&& !old(self)@.faulted
                    &&& old(self)@.resident(offset) || old(self)@.vacancy() < MAX_CACHED_PAGES
                    &&& final(self)@ == old(self)@.installed(offset)
                    &&& final(self)@.resident(offset)
                },
                Err(e) => {
                    &&& final(self)@ == old(self)@
                    &&& if old(self)@.faulted {
                        e == KError::BadHandle
                    } else {
                        &&& e == KError::OutOfMemory
                        &&& !old(self)@.resident(offset)
                        &&& old(self)@.vacancy() == MAX_CACHED_PAGES
                    }
                },
            },
    {
        if self.faulted {
            return Err(KError::BadHandle);
        }
        proof {
            slots::lemma_first(self@.pages, page_at(offset));
        }
        if self.find(offset).is_some() {
            return Ok(());
        }
        match slots::find_free(&self.pages) {
            None => Err(KError::OutOfMemory),
            Some(slot) => {
                let page = PageEntry { offset, dirty: false, writing: false, overtaken: false };
                self.pages[slot] = Some(page);
                proof {
                    let before = old(self)@.pages;
                    slots::lemma_count_update(before, dirty(), slot as int, Some(page));
                    assert forall|i: int, j: int|
                        0 <= i < j < MAX_CACHED_PAGES && (#[trigger] self@.pages[i]) is Some && (
                        #[trigger] self@.pages[j]) is Some implies self@.pages[i]->0.offset
                        != self@.pages[j]->0.offset by {
                        assert(!page_at(offset)(before[i]));
                        assert(!page_at(offset)(before[j]));
                    }
                    assert(page_at(offset)(self@.pages[slot as int]));
                    slots::lemma_first(self@.pages, page_at(offset));
                }
                Ok(())
            },
        }
    }

    /// Marks a resident page dirty on a write fault, or asks the caller to
    /// throttle the writer if the object is already at its dirty bound (or the
    /// page is not resident: a write pages in first). Marking an already-dirty
    /// page is free.
    pub fn mark_dirty(&mut self, offset: u64) -> (r: DirtyOutcome)
        requires
            old(self).wf(),
        ensures
            final(self).wf(),
            match r {
                DirtyOutcome::Marked => {
                    &&& old(self)@.admits_store(offset)
                    &&& final(self)@ == old(self)@.stored(offset)
                    &&& final(self)@.is_dirty(offset)
                },
                DirtyOutcome::Throttle => {
                    &&& !old(self)@.admits_store(offset)
                    &&& final(self)@ == old(self)@
                },
            },
    {
        proof {
            slots::lemma_first(self@.pages, page_at(offset));
        }
        match self.find(offset) {
            None => DirtyOutcome::Throttle,
            Some(idx) => match self.pages[idx] {
                None => DirtyOutcome::Throttle,
                Some(p) => {
                    if !p.dirty && self.dirty_count() >= self.dirty_limit {
                        return DirtyOutcome::Throttle;
                    }
                    let q = PageEntry {
                        offset: p.offset,
                        dirty: true,
                        writing: p.writing,
                        overtaken: p.overtaken || p.writing,
                    };
                    proof {
                        lemma_with_page(self@, offset, q);
                    }
                    self.pages[idx] = Some(q);
                    assert(self@ =~= old(self)@.stored(offset));
                    DirtyOutcome::Marked
                },
            },
        }
    }

    /// Marks a page clean: called only after the pager acknowledges its
    /// write-back. No-op if absent.
    pub fn mark_clean(&mut self, offset: u64)
        requires
            old(self).wf(),
        ensures
            final(self).wf(),
            final(self)@ == old(self)@.cleaned(offset),
    {
        proof {
            slots::lemma_first(self@.pages, page_at(offset));
        }
        if let Some(idx) = self.find(offset) {
            if let Some(p) = self.pages[idx] {
                let q = PageEntry {
                    offset: p.offset,
                    dirty: false,
                    writing: p.writing,
                    overtaken: p.overtaken,
                };
                proof {
                    lemma_with_page(self@, offset, q);
                }
                self.pages[idx] = Some(q);
                assert(self@ =~= old(self)@.cleaned(offset));
            }
        }
    }

    /// Opens a write-back window over the page at `offset`: from here until
    /// [`end_write_back`](Self::end_write_back), a store to the page is recorded
    /// as having overtaken the request. No-op if absent.
    pub fn begin_write_back(&mut self, offset: u64)
        requires
            old(self).wf(),
        ensures
            final(self).wf(),
            final(self)@ == old(self)@.write_back_begun(offset),
    {
        proof {
            slots::lemma_first(self@.pages, page_at(offset));
        }
        if let Some(idx) = self.find(offset) {
            if let Some(p) = self.pages[idx] {
                let q = PageEntry {
                    offset: p.offset,
                    dirty: p.dirty,
                    writing: true,
                    overtaken: false,
                };
                proof {
                    lemma_with_page(self@, offset, q);
                }
                self.pages[idx] = Some(q);
                assert(self@ =~= old(self)@.write_back_begun(offset));
            }
        }
    }

    /// Closes the window, reporting whether a store landed inside it. `true`
    /// means the page must stay dirty: what the service was handed is no longer
    /// what the page holds.
    pub fn end_write_back(&mut self, offset: u64) -> (overtaken: bool)
        requires
            old(self).wf(),
        ensures
            final(self).wf(),
            overtaken == (old(self)@.resident(offset) && old(self)@.page(offset).overtaken),
            final(self)@ == old(self)@.write_back_ended(offset),
    {
        proof {
            slots::lemma_first(self@.pages, page_at(offset));
        }
        if let Some(idx) = self.find(offset) {
            if let Some(p) = self.pages[idx] {
                let q = PageEntry {
                    offset: p.offset,
                    dirty: p.dirty,
                    writing: false,
                    overtaken: false,
                };
                proof {
                    lemma_with_page(self@, offset, q);
                }
                self.pages[idx] = Some(q);
                assert(self@ =~= old(self)@.write_back_ended(offset));
                return p.overtaken;
            }
        }
        false
    }

    /// The lowest offset of a clean resident page, or `None` if every resident
    /// page is dirty (a dirty page must be written back first).
    pub fn evict_candidate(&self) -> (r: Option<u64>)
        requires
            self.wf(),
        ensures
            match r {
                Some(offset) => self@.evictable(offset),
                None => !slots::any(self@.pages, clean()),
            },
    {
        let mut best: Option<u64> = None;
        let mut i: usize = 0;
        while i < MAX_CACHED_PAGES
            invariant
                self.wf(),
                i <= MAX_CACHED_PAGES,
                match best {
                    Some(b) => {
                        &&& exists|j: int|
                            0 <= j < i && clean()(#[trigger] self@.pages[j])
                                && self@.pages[j]->0.offset == b
                        &&& forall|j: int|
                            0 <= j < i && clean()(#[trigger] self@.pages[j]) ==> b
                                <= self@.pages[j]->0.offset
                    },
                    None => forall|j: int| 0 <= j < i ==> !clean()(#[trigger] self@.pages[j]),
                },
            decreases MAX_CACHED_PAGES - i,
        {
            let ghost was = best;
            if let Some(p) = self.pages[i] {
                if !p.dirty {
                    let lower: bool = match best {
                        Some(b) => p.offset < b,
                        None => true,
                    };
                    if lower {
                        best = Some(p.offset);
                        assert(clean()(self@.pages[i as int]) && self@.pages[i as int]->0.offset
                            == p.offset);
                    }
                }
            }
            i += 1;
        }
        proof {
            if let Some(b) = best {
                let j = choose|j: int|
                    0 <= j < i && clean()(#[trigger] self@.pages[j]) && self@.pages[j]->0.offset
                        == b;
                lemma_slot_is(self@, b, j);
            }
        }
        best
    }

    /// Removes a page from the cache (it has been evicted or faulted; its next
    /// access pages it in again).
    pub fn forget(&mut self, offset: u64)
        requires
            old(self).wf(),
        ensures
            final(self).wf(),
            final(self)@ == old(self)@.forgotten(offset),
            !final(self)@.resident(offset),
    {
        proof {
            slots::lemma_first(self@.pages, page_at(offset));
        }
        if let Some(idx) = self.find(offset) {
            self.pages[idx] = None;
            proof {
                let before = old(self)@.pages;
                slots::lemma_count_update(before, dirty(), idx as int, None);
                assert forall|i: int, j: int|
                    0 <= i < j < MAX_CACHED_PAGES && (#[trigger] self@.pages[i]) is Some && (
                    #[trigger] self@.pages[j]) is Some implies self@.pages[i]->0.offset
                    != self@.pages[j]->0.offset by {
                    assert(before[i] is Some && before[j] is Some);
                }
                assert forall|j: int| 0 <= j < MAX_CACHED_PAGES implies !page_at(offset)(
                    #[trigger] self@.pages[j],
                ) by {
                    if j != idx && page_at(offset)(self@.pages[j]) {
                        lemma_slot_is(old(self)@, offset, j);
                    }
                }
                slots::lemma_first_is(self@.pages, page_at(offset), MAX_CACHED_PAGES as int);
            }
        }
    }

    /// Fills `out` with the offsets of every dirty page, ascending, and returns
    /// the count: the dirty-range query pagers use for coordinated flush. When
    /// `out` is too short, as many as fit are reported.
    pub fn dirty_offsets(&self, out: &mut [u64]) -> (n: usize)
        requires
            self.wf(),
        ensures
            reports(old(out)@, final(out)@, n as int, dirty_list(self@.pages)),
    {
        let mut sorted: Vec<u64> = Vec::new();
        let mut i: usize = 0;
        let ghost pages = self@.pages;
        let room: usize = out.len();
        proof {
            assert(pages.take(0) =~= Seq::<Option<PageEntry>>::empty());
            assert(dirty_list(pages.take(0)).take(0) =~= sorted@);
        }
        while i < MAX_CACHED_PAGES
            invariant
                self.wf(),
                pages == self@.pages,
                i <= MAX_CACHED_PAGES,
                room == old(out)@.len(),
                out@ == old(out)@,
                sorted@.len() == if dirty_list(pages.take(i as int)).len() <= room {
                    dirty_list(pages.take(i as int)).len()
                } else {
                    room as nat
                },
                ascending(sorted@),
                sorted@.to_multiset() == dirty_list(pages.take(i as int)).take(
                    sorted@.len() as int,
                ).to_multiset(),
            decreases MAX_CACHED_PAGES - i,
        {
            let ghost so_far = dirty_list(pages.take(i as int));
            let ghost next = dirty_list(pages.take(i + 1));
            proof {
                assert(pages.take(i + 1).drop_last() =~= pages.take(i as int));
                assert(pages.take(i + 1).last() == pages[i as int]);
            }
            if let Some(p) = self.pages[i] {
                if p.dirty {
                    assert(next == so_far.push(p.offset));
                    if sorted.len() < room {
                        let ghost was = sorted@;
                        proof {
                            assert(so_far.take(was.len() as int) =~= so_far);
                            assert(next.take((was.len() + 1) as int) =~= next);
                            so_far.to_multiset_ensures();
                        }
                        insert_sorted(&mut sorted, p.offset);
                        assert(sorted@.to_multiset() == next.to_multiset());
                    } else {
                        assert(next.take(sorted@.len() as int) =~= so_far.take(
                            sorted@.len() as int,
                        ));
                    }
                }
            }
            i += 1;
        }
        assert(pages.take(i as int) =~= pages);
        let n: usize = sorted.len();
        let mut k: usize = 0;
        while k < n
            invariant
                k <= n,
                n == sorted@.len(),
                n <= room,
                room == old(out)@.len(),
                out@.len() == old(out)@.len(),
                forall|j: int| 0 <= j < k ==> out@[j] == sorted@[j],
                forall|j: int| k <= j < out@.len() ==> out@[j] == old(out)@[j],
            decreases n - k,
        {
            out[k] = sorted[k];
            k += 1;
        }
        assert(out@.take(n as int) =~= sorted@);
        n
    }

    /// Number of dirty resident pages.
    pub fn dirty_count(&self) -> (n: u32)
        requires
            self.wf(),
        ensures
            n == self@.dirty_count(),
    {
        let mut n: u32 = 0;
        let mut i: usize = 0;
        while i < MAX_CACHED_PAGES
            invariant
                self.wf(),
                i <= MAX_CACHED_PAGES,
                n <= i,
                n == slots::count(self@.pages.take(i as int), dirty()),
            decreases MAX_CACHED_PAGES - i,
        {
            proof {
                slots::lemma_count_take(self@.pages, dirty(), i as int);
            }
            if let Some(p) = self.pages[i] {
                if p.dirty {
                    n += 1;
                }
            }
            i += 1;
        }
        assert(self@.pages.take(i as int) =~= self@.pages);
        n
    }

    /// Number of resident pages (clean and dirty).
    pub fn resident_count(&self) -> (n: usize)
        ensures
            n == slots::count(self@.pages, slots::used::<PageEntry>()),
    {
        slots::count_used(&self.pages)
    }

    /// Whether `offset` is resident.
    pub fn is_resident(&self, offset: u64) -> (b: bool)
        requires
            self.wf(),
        ensures
            b == self@.resident(offset),
    {
        self.find(offset).is_some()
    }

    /// Whether `offset` is resident and dirty.
    pub fn is_dirty(&self, offset: u64) -> (b: bool)
        requires
            self.wf(),
        ensures
            b == self@.is_dirty(offset),
    {
        proof {
            slots::lemma_first(self@.pages, page_at(offset));
        }
        match self.find(offset) {
            None => false,
            Some(i) => match self.pages[i] {
                None => false,
                Some(p) => p.dirty,
            },
        }
    }

    /// Faults the object (pager death): reports the lost dirty pages into `out`
    /// (ascending, exactly the dirty pages), drops every resident page, and
    /// marks the object faulted so clean pages fault again and no further page
    /// is admitted. Returns the lost count.
    pub fn fault(&mut self, out: &mut [u64]) -> (lost: usize)
        requires
            old(self).wf(),
        ensures
            final(self).wf(),
            reports(old(out)@, final(out)@, lost as int, dirty_list(old(self)@.pages)),
            final(self)@ == old(self)@.after_fault(),
    {
        let lost: usize = self.dirty_offsets(out);
        self.pages = slots::empty_slots(MAX_CACHED_PAGES);
        self.faulted = true;
        proof {
            slots::lemma_count_zero(self@.pages, dirty());
        }
        lost
    }

    /// Marks the object faulted and leaves its pages as they are: the range
    /// whose page-in was given up on.
    pub fn set_faulted(&mut self)
        requires
            old(self).wf(),
        ensures
            final(self).wf(),
            final(self)@ == (CacheView { faulted: true, ..old(self)@ }),
    {
        self.faulted = true;
    }

    /// Whether the object has been faulted (its pager died).
    pub fn is_faulted(&self) -> (b: bool)
        ensures
            b == self@.faulted,
    {
        self.faulted
    }

    fn find(&self, offset: u64) -> (r: Option<usize>)
        requires
            self.wf(),
        ensures
            match r {
                Some(i) => i == self@.slot(offset) && i < MAX_CACHED_PAGES,
                None => self@.slot(offset) == MAX_CACHED_PAGES,
            },
    {
        let mut i: usize = 0;
        while i < MAX_CACHED_PAGES
            invariant
                self.wf(),
                i <= MAX_CACHED_PAGES,
                forall|j: int| 0 <= j < i ==> !page_at(offset)(#[trigger] self@.pages[j]),
            decreases MAX_CACHED_PAGES - i,
        {
            if let Some(p) = self.pages[i] {
                if p.offset == offset {
                    proof {
                        slots::lemma_first_is(self@.pages, page_at(offset), i as int);
                    }
                    return Some(i);
                }
            }
            i += 1;
        }
        proof {
            slots::lemma_first_is(self@.pages, page_at(offset), i as int);
        }
        None
    }
}

/// The page at `offset` is where it is found.
proof fn lemma_slot_is(c: CacheView, offset: u64, i: int)
    requires
        c.wf(),
        0 <= i < c.pages.len(),
        page_at(offset)(c.pages[i]),
    ensures
        c.slot(offset) == i,
{
    slots::lemma_first(c.pages, page_at(offset));
    let f = c.slot(offset);
    if f < i {
        assert(c.pages[f] is Some && c.pages[i] is Some);
    }
}

/// Puts `x` where it belongs in an ascending list.
fn insert_sorted(v: &mut Vec<u64>, x: u64)
    requires
        ascending(old(v)@),
    ensures
        ascending(final(v)@),
        final(v)@.len() == old(v)@.len() + 1,
        final(v)@.to_multiset() == old(v)@.to_multiset().insert(x),
{
    let mut i: usize = 0;
    while i < v.len() && v[i] <= x
        invariant
            v@ == old(v)@,
            i <= v@.len(),
            ascending(v@),
            forall|j: int| 0 <= j < i ==> v@[j] <= x,
        decreases v@.len() - i,
    {
        i += 1;
    }
    proof {
        let s = v@;
        let t = s.insert(i as int, x);
        vstd::seq_lib::to_multiset_insert(s, i as int, x);
        assert forall|a: int, b: int| 0 <= a < b < t.len() implies t[a] <= t[b] by {
            let at = i as int;
            let oa = if a < at {
                a
            } else {
                a - 1
            };
            let ob = if b < at {
                b
            } else {
                b - 1
            };
            if a != at && b != at {
                assert(t[a] == s[oa] && t[b] == s[ob]);
            } else if a == at {
                assert(t[b] == s[ob]);
                if ob > at {
                    assert(s[at] <= s[ob]);
                }
            } else {
                assert(t[a] == s[oa]);
            }
        }
    }
    v.insert(i, x);
}

/// A pager's write-back reservation: frames guaranteed available to the
/// write-back path and protected from ordinary allocation, so reclaim can
/// always make progress. Ordinary allocation may not consume the reservation;
/// the write-back path draws from it, and over-allocating past it fails
/// cleanly.
#[derive(Clone, Copy, PartialEq, Eq, Debug, Structural)]
pub struct WriteBackReservation {
    pub capacity: u32,
    pub reserved: u32,
    pub ordinary_in_use: u32,
    pub writeback_in_use: u32,
}

impl WriteBackReservation {
    /// The budget's invariant: the reservation fits, ordinary use stays outside
    /// it and write-back use inside it.
    pub open spec fn wf(self) -> bool {
        &&& self.reserved <= self.capacity
        &&& self.ordinary_in_use <= self.capacity - self.reserved
        &&& self.writeback_in_use <= self.reserved
    }

    /// Whether only the reservation remains.
    pub open spec fn pressed(self) -> bool {
        self.ordinary_in_use >= self.capacity - self.reserved
    }

    /// A budget of `capacity` frames with `reserved` of them set aside for the
    /// write-back path (clamped to `capacity`).
    pub fn new(capacity: u32, reserved: u32) -> (r: WriteBackReservation)
        ensures
            r.wf(),
            r == (WriteBackReservation {
                capacity,
                reserved: if reserved > capacity {
                    capacity
                } else {
                    reserved
                },
                ordinary_in_use: 0,
                writeback_in_use: 0,
            }),
    {
        let reserved: u32 = if reserved > capacity {
            capacity
        } else {
            reserved
        };
        WriteBackReservation { capacity, reserved, ordinary_in_use: 0, writeback_in_use: 0 }
    }

    /// Allocates one frame for the ordinary (fault and page-in) path. `None`
    /// once only the protected reservation remains.
    pub fn alloc_ordinary(&mut self) -> (r: Option<()>)
        requires
            old(self).wf(),
        ensures
            final(self).wf(),
            r is Some == !old(self).pressed(),
            *final(self) == (if old(self).pressed() {
                *old(self)
            } else {
                WriteBackReservation {
                    ordinary_in_use: (old(self).ordinary_in_use + 1) as u32,
                    ..*old(self)
                }
            }),
    {
        if self.ordinary_in_use < self.capacity - self.reserved {
            self.ordinary_in_use += 1;
            Some(())
        } else {
            None
        }
    }

    /// Frees one ordinary frame.
    pub fn free_ordinary(&mut self)
        requires
            old(self).wf(),
        ensures
            final(self).wf(),
            *final(self) == (WriteBackReservation {
                ordinary_in_use: if old(self).ordinary_in_use == 0 {
                    0
                } else {
                    (old(self).ordinary_in_use - 1) as u32
                },
                ..*old(self)
            }),
    {
        self.ordinary_in_use = self.ordinary_in_use.saturating_sub(1);
    }

    /// Allocates one frame for the write-back path, drawing from the
    /// reservation. `None` only when the write-back would exceed it.
    pub fn alloc_writeback(&mut self) -> (r: Option<()>)
        requires
            old(self).wf(),
        ensures
            final(self).wf(),
            r is Some == (old(self).writeback_in_use < old(self).reserved),
            *final(self) == (if old(self).writeback_in_use < old(self).reserved {
                WriteBackReservation {
                    writeback_in_use: (old(self).writeback_in_use + 1) as u32,
                    ..*old(self)
                }
            } else {
                *old(self)
            }),
    {
        if self.writeback_in_use < self.reserved {
            self.writeback_in_use += 1;
            Some(())
        } else {
            None
        }
    }

    /// Frees one write-back frame.
    pub fn free_writeback(&mut self)
        requires
            old(self).wf(),
        ensures
            final(self).wf(),
            *final(self) == (WriteBackReservation {
                writeback_in_use: if old(self).writeback_in_use == 0 {
                    0
                } else {
                    (old(self).writeback_in_use - 1) as u32
                },
                ..*old(self)
            }),
    {
        self.writeback_in_use = self.writeback_in_use.saturating_sub(1);
    }

    /// Whether the ordinary path is at hard memory pressure: only the
    /// reservation remains, so ordinary allocation is refused but write-back can
    /// still progress.
    pub fn at_pressure(&self) -> (b: bool)
        requires
            self.wf(),
        ensures
            b == self.pressed(),
    {
        self.ordinary_in_use >= self.capacity - self.reserved
    }
}

/// Pressure on the ordinary path never reaches the reservation: while fewer
/// than the reserved frames are out for write-back, another can be had however
/// much ordinary allocation has taken, and the two together fit the budget.
pub proof fn law_reservation_is_protected(r: WriteBackReservation)
    requires
        r.wf(),
        r.pressed(),
    ensures
        r.ordinary_in_use + r.writeback_in_use <= r.capacity,
        r.capacity - r.ordinary_in_use >= r.reserved,
        r.writeback_in_use < r.reserved ==> r.ordinary_in_use + r.writeback_in_use + 1
            <= r.capacity,
{
}

/// The result of a page-in request routed through the anti-deadlock guard.
#[derive(Clone, Copy, PartialEq, Eq, Debug, Structural)]
pub enum PageInResult {
    /// The request may proceed: its server is not already in the waits-for
    /// chain.
    Served,
    /// Serving it would re-enter a pager already blocked in the chain, or no
    /// pager can serve it: the request is faulted rather than blocked.
    Cycle,
}

/// The anti-deadlock guard for pager-backed page-ins. Each pager has at most
/// one outstanding page-in, so the in-flight requests form a waits-for graph; a
/// new request that would close a loop in it is faulted. A pager that faults on
/// the object it itself pages is the degenerate case.
pub struct SelfPagingGraph {
    /// Which pager serves which object.
    bindings: Vec<(u64, u32)>,
    /// In-flight edges: the waiting pager and the one serving its page-in.
    waits: Vec<(u32, u32)>,
}

/// What a [`SelfPagingGraph`] holds.
#[verifier::ext_equal]
pub struct GraphView {
    pub bindings: Seq<(u64, u32)>,
    pub waits: Seq<(u32, u32)>,
}

/// The predicate of the binding of `object`.
pub open spec fn serves(object: u64) -> spec_fn((u64, u32)) -> bool {
    |b: (u64, u32)| b.0 == object
}

/// The predicate of an edge out of `waiter`.
pub open spec fn from(waiter: u32) -> spec_fn((u32, u32)) -> bool {
    |e: (u32, u32)| e.0 == waiter
}

/// The pager that serves `object`, if one is bound.
pub open spec fn server(bindings: Seq<(u64, u32)>, object: u64) -> Option<u32> {
    let at = slots::first(bindings, serves(object));
    if at < bindings.len() {
        Some(bindings[at].1)
    } else {
        None
    }
}

/// The pager that `node` waits for, if any.
pub open spec fn awaited(waits: Seq<(u32, u32)>, node: u32) -> Option<u32> {
    let at = slots::first(waits, from(node));
    if at < waits.len() {
        Some(waits[at].1)
    } else {
        None
    }
}

/// The pager `n` steps along the chain from `node`, if the chain is that long.
pub open spec fn follow(waits: Seq<(u32, u32)>, node: u32, n: nat) -> Option<u32>
    decreases n,
{
    if n == 0 {
        Some(node)
    } else {
        match follow(waits, node, (n - 1) as nat) {
            Some(m) => awaited(waits, m),
            None => None,
        }
    }
}

/// Whether following the chain from `node` arrives at `target`.
pub open spec fn reachable(waits: Seq<(u32, u32)>, node: u32, target: u32) -> bool {
    exists|k: nat| 1 <= k && #[trigger] follow(waits, node, k) == Some(target)
}

/// Whether nobody waits for itself, directly or through others.
pub open spec fn acyclic(waits: Seq<(u32, u32)>) -> bool {
    forall|node: u32| !#[trigger] reachable(waits, node, node)
}

impl GraphView {
    pub open spec fn wf(self) -> bool {
        self.bindings.len() <= MAX_PAGERS
    }

    /// Whether a page-in of `object` by `requester` would close a loop, or
    /// cannot be served at all.
    pub open spec fn refuses(self, requester: u32, object: u64) -> bool {
        match server(self.bindings, object) {
            None => true,
            Some(s) => s == requester || reachable(self.waits, s, requester),
        }
    }

    /// After a page-in by `requester`, served by `s`, goes out: its edge is
    /// recorded.
    pub open spec fn requested(self, requester: u32, s: u32) -> GraphView {
        GraphView { waits: self.waits.push((requester, s)), ..self }
    }

    /// After `requester`'s page-in ends: its first edge goes, the last edge
    /// taking its place.
    pub open spec fn completed(self, requester: u32) -> GraphView {
        let at = slots::first(self.waits, from(requester));
        if at < self.waits.len() {
            GraphView { waits: self.waits.update(at, self.waits.last()).drop_last(), ..self }
        } else {
            self
        }
    }
}

impl View for SelfPagingGraph {
    type V = GraphView;

    closed spec fn view(&self) -> GraphView {
        GraphView { bindings: self.bindings@, waits: self.waits@ }
    }
}

impl SelfPagingGraph {
    /// The guard's invariant.
    pub open spec fn wf(&self) -> bool {
        self@.wf()
    }

    /// An empty guard: no bindings, no in-flight requests.
    pub fn new() -> (g: SelfPagingGraph)
        ensures
            g.wf(),
            g@ == (GraphView { bindings: Seq::empty(), waits: Seq::empty() }),
    {
        SelfPagingGraph { bindings: Vec::new(), waits: Vec::new() }
    }

    /// Records that `object` is paged by `pager`. `OutOfMemory` if the binding
    /// table is full.
    pub fn bind(&mut self, object: u64, pager: u32) -> (r: Result<(), KError>)
        requires
            old(self).wf(),
        ensures
            final(self).wf(),
            match r {
                Ok(_) => {
                    &&& old(self)@.bindings.len() < MAX_PAGERS
                    &&& final(self)@ == (GraphView {
                        bindings: old(self)@.bindings.push((object, pager)),
                        ..old(self)@
                    })
                },
                Err(e) => {
                    &&& e == KError::OutOfMemory
                    &&& old(self)@.bindings.len() == MAX_PAGERS
                    &&& final(self)@ == old(self)@
                },
            },
    {
        if self.bindings.len() >= MAX_PAGERS {
            return Err(KError::OutOfMemory);
        }
        self.bindings.push((object, pager));
        Ok(())
    }

    /// Routes a page-in of `object` requested (in its handler) by `requester`.
    /// [`PageInResult::Cycle`] when the object's serving pager is the requester
    /// itself or already waits, through others, for the requester, or when
    /// nobody serves it; otherwise the in-flight edge is recorded.
    pub fn request_page_in(&mut self, requester: u32, object: u64) -> (r: PageInResult)
        requires
            old(self).wf(),
        ensures
            final(self).wf(),
            match r {
                PageInResult::Cycle => {
                    &&& old(self)@.refuses(requester, object)
                    &&& final(self)@ == old(self)@
                },
                PageInResult::Served => {
                    &&& !old(self)@.refuses(requester, object)
                    &&& final(self)@ == old(self)@.requested(
                        requester,
                        server(old(self)@.bindings, object)->0,
                    )
                    &&& final(self)@.waits.len() == old(self)@.waits.len() + 1
                },
            },
    {
        match self.server_of(object) {
            None => PageInResult::Cycle,
            Some(server) => {
                if server == requester || self.reaches(server, requester) {
                    return PageInResult::Cycle;
                }
                self.waits.push((requester, server));
                PageInResult::Served
            },
        }
    }

    /// Clears `requester`'s in-flight edge (its page-in completed or was
    /// faulted).
    pub fn complete(&mut self, requester: u32)
        requires
            old(self).wf(),
        ensures
            final(self).wf(),
            final(self)@ == old(self)@.completed(requester),
    {
        let mut i: usize = 0;
        while i < self.waits.len()
            invariant
                self.wf(),
                *self == *old(self),
                i <= self@.waits.len(),
                forall|j: int| 0 <= j < i ==> !from(requester)(#[trigger] self@.waits[j]),
            decreases self@.waits.len() - i,
        {
            if self.waits[i].0 == requester {
                proof {
                    slots::lemma_first_is(self@.waits, from(requester), i as int);
                }
                let _ = self.waits.swap_remove(i);
                assert(self@ =~= old(self)@.completed(requester));
                return;
            }
            i += 1;
        }
        proof {
            slots::lemma_first_is(self@.waits, from(requester), i as int);
        }
    }

    /// Number of in-flight page-in requests.
    pub fn in_flight(&self) -> (n: usize)
        ensures
            n == self@.waits.len(),
    {
        self.waits.len()
    }

    fn server_of(&self, object: u64) -> (r: Option<u32>)
        ensures
            r == server(self@.bindings, object),
    {
        let mut i: usize = 0;
        while i < self.bindings.len()
            invariant
                i <= self@.bindings.len(),
                forall|j: int| 0 <= j < i ==> !serves(object)(#[trigger] self@.bindings[j]),
            decreases self@.bindings.len() - i,
        {
            if self.bindings[i].0 == object {
                proof {
                    slots::lemma_first_is(self@.bindings, serves(object), i as int);
                }
                return Some(self.bindings[i].1);
            }
            i += 1;
        }
        proof {
            slots::lemma_first_is(self@.bindings, serves(object), i as int);
        }
        None
    }

    fn awaited_by(&self, node: u32) -> (r: Option<u32>)
        ensures
            r == awaited(self@.waits, node),
    {
        let mut i: usize = 0;
        while i < self.waits.len()
            invariant
                i <= self@.waits.len(),
                forall|j: int| 0 <= j < i ==> !from(node)(#[trigger] self@.waits[j]),
            decreases self@.waits.len() - i,
        {
            if self.waits[i].0 == node {
                proof {
                    slots::lemma_first_is(self@.waits, from(node), i as int);
                }
                return Some(self.waits[i].1);
            }
            i += 1;
        }
        proof {
            slots::lemma_first_is(self@.waits, from(node), i as int);
        }
        None
    }

    /// Whether, following the waits-for edges from `start`, `target` is reached
    /// (so a new edge from `target` to `start` would close a loop). Each pager
    /// has at most one outgoing edge, so the walk is as long as there are edges.
    fn reaches(&self, start: u32, target: u32) -> (b: bool)
        ensures
            b == reachable(self@.waits, start, target),
    {
        let mut node: u32 = start;
        let mut n: usize = 0;
        let ghost w = self@.waits;
        while n < self.waits.len()
            invariant
                w == self@.waits,
                n <= w.len(),
                follow(w, start, n as nat) == Some(node),
                forall|k: nat| 1 <= k <= n ==> #[trigger] follow(w, start, k) != Some(target),
            decreases w.len() - n,
        {
            match self.awaited_by(node) {
                None => {
                    proof {
                        assert forall|k: nat| 1 <= k implies #[trigger] follow(w, start, k)
                            != Some(target) by {
                            if k > n {
                                assert(follow(w, start, (n + 1) as nat) is None);
                                lemma_chain_ends(w, start, (n + 1) as nat, k);
                            }
                        }
                    }
                    return false;
                },
                Some(next) => {
                    assert(follow(w, start, (n + 1) as nat) == Some(next));
                    if next == target {
                        return true;
                    }
                    node = next;
                },
            }
            n += 1;
        }
        proof {
            if reachable(w, start, target) {
                let k = choose|k: nat| 1 <= k && #[trigger] follow(w, start, k) == Some(target);
                law_a_chain_need_not_be_long(w, start, target, k);
            }
        }
        false
    }
}

/// A chain that has ended stays ended.
proof fn lemma_chain_ends(w: Seq<(u32, u32)>, node: u32, n: nat, m: nat)
    requires
        follow(w, node, n) is None,
        n <= m,
    ensures
        follow(w, node, m) is None,
    decreases m,
{
    if m > n {
        lemma_chain_ends(w, node, n, (m - 1) as nat);
    }
}

impl Default for SelfPagingGraph {
    fn default() -> (g: SelfPagingGraph)
        ensures
            g.wf(),
            g@ == (GraphView { bindings: Seq::empty(), waits: Seq::empty() }),
    {
        SelfPagingGraph::new()
    }
}

/// Whether a page-in request is still within its deadline or has expired.
#[derive(Clone, Copy, PartialEq, Eq, Debug, Structural)]
pub enum DeadlineOutcome {
    /// The request is within its deadline: keep waiting.
    Pending,
    /// The deadline expired: the faulting thread is told and the range is
    /// marked faulted.
    Expired,
}

/// Whether a recorded deadline miss escalates to supervised restart.
#[derive(Clone, Copy, PartialEq, Eq, Debug, Structural)]
pub enum MissOutcome {
    /// The miss is counted; the pager is still within its supervision budget.
    Continue,
    /// Repeated misses crossed the supervision threshold.
    Escalate,
}

/// The page-in deadline supervisor: a request past its deadline expires, and
/// every `escalate_after` misses escalate to a supervised restart.
#[derive(Clone, Copy, PartialEq, Eq, Debug, Structural)]
pub struct PageInSupervisor {
    pub deadline: u64,
    pub escalate_after: u32,
    pub misses: u32,
    pub escalations: u32,
}

impl PageInSupervisor {
    /// The supervisor's invariant: exactly one escalation per `escalate_after`
    /// misses.
    pub open spec fn wf(self) -> bool {
        self.escalate_after >= 1 && self.escalations == self.misses / self.escalate_after
    }

    /// Whether the next miss escalates.
    pub open spec fn escalates(self) -> bool {
        (self.misses + 1) % (self.escalate_after as int) == 0
    }

    /// After one more miss.
    pub open spec fn missed(self) -> PageInSupervisor {
        PageInSupervisor {
            misses: (self.misses + 1) as u32,
            escalations: if self.escalates() {
                (self.escalations + 1) as u32
            } else {
                self.escalations
            },
            ..self
        }
    }

    /// A supervisor allowing `deadline` ticks per page-in and escalating every
    /// `escalate_after` misses (forced to at least 1).
    pub fn new(deadline: u64, escalate_after: u32) -> (s: PageInSupervisor)
        ensures
            s.wf(),
            s == (PageInSupervisor {
                deadline,
                escalate_after: if escalate_after == 0 {
                    1
                } else {
                    escalate_after
                },
                misses: 0,
                escalations: 0,
            }),
    {
        let escalate_after: u32 = if escalate_after == 0 {
            1
        } else {
            escalate_after
        };
        proof {
            vstd::arithmetic::div_mod::lemma_div_basics(escalate_after as int);
        }
        PageInSupervisor { deadline, escalate_after, misses: 0, escalations: 0 }
    }

    /// Whether a request started at tick `started` has expired by tick `now`:
    /// only once the elapsed time exceeds the deadline.
    pub fn check(&self, started: u64, now: u64) -> (r: DeadlineOutcome)
        ensures
            r == (if now > started && now - started > self.deadline {
                DeadlineOutcome::Expired
            } else {
                DeadlineOutcome::Pending
            }),
    {
        if now.saturating_sub(started) > self.deadline {
            DeadlineOutcome::Expired
        } else {
            DeadlineOutcome::Pending
        }
    }

    /// Records a deadline miss and reports whether it escalates to a supervised
    /// restart.
    pub fn record_miss(&mut self) -> (r: MissOutcome)
        requires
            old(self).wf(),
            old(self).misses < u32::MAX,
        ensures
            final(self).wf(),
            *final(self) == old(self).missed(),
            r == (if old(self).escalates() {
                MissOutcome::Escalate
            } else {
                MissOutcome::Continue
            }),
    {
        proof {
            lemma_next_multiple(self.misses as int, self.escalate_after as int);
        }
        self.misses += 1;
        if self.misses % self.escalate_after == 0 {
            self.escalations += 1;
            MissOutcome::Escalate
        } else {
            MissOutcome::Continue
        }
    }

    /// Total deadline misses observed.
    pub fn misses(&self) -> (n: u32)
        ensures
            n == self.misses,
    {
        self.misses
    }

    /// Total supervised-restart escalations.
    pub fn escalations(&self) -> (n: u32)
        ensures
            n == self.escalations,
    {
        self.escalations
    }
}

/// The quotient moves exactly when the next number is a multiple.
proof fn lemma_next_multiple(m: int, d: int)
    requires
        m >= 0,
        d >= 1,
    ensures
        (m + 1) / d == if (m + 1) % d == 0 {
            m / d + 1
        } else {
            m / d
        },
        0 <= m / d <= m,
{
    vstd::arithmetic::div_mod::lemma_fundamental_div_mod(m, d);
    vstd::arithmetic::div_mod::lemma_fundamental_div_mod(m + 1, d);
    vstd::arithmetic::div_mod::lemma_mod_bound(m, d);
    vstd::arithmetic::div_mod::lemma_mod_bound(m + 1, d);
    let q = m / d;
    let r = m % d;
    if r == d - 1 {
        assert(m + 1 == d * (q + 1)) by (nonlinear_arith)
            requires
                m == d * q + r,
                r == d - 1,
        ;
        vstd::arithmetic::div_mod::lemma_fundamental_div_mod_converse(m + 1, d, q + 1, 0);
    } else {
        assert(m + 1 == q * d + (r + 1)) by (nonlinear_arith)
            requires
                m == d * q + r,
        ;
        vstd::arithmetic::div_mod::lemma_fundamental_div_mod_converse(m + 1, d, q, r + 1);
    }
    vstd::arithmetic::div_mod::lemma_div_is_ordered_by_denominator(m, 1, d);
    vstd::arithmetic::div_mod::lemma_div_pos_is_pos(m, d);
    vstd::arithmetic::div_mod::lemma_div_basics(m);
}

/// Whether the chain from `node` is at the same pager after `a` steps as after
/// `b`.
spec fn meets(w: Seq<(u32, u32)>, node: u32, a: int, b: int) -> bool {
    follow(w, node, a as nat) == follow(w, node, b as nat)
}

/// A chain longer than the list of edges comes by some pager twice.
proof fn lemma_long_chain_repeats(w: Seq<(u32, u32)>, node: u32, n: nat)
    requires
        follow(w, node, n) is Some,
        n > w.len(),
    ensures
        exists|a: int, b: int| 0 <= a < b < n && #[trigger] meets(w, node, a, b),
{
    if forall|a: int, b: int| 0 <= a < b < n ==> !#[trigger] meets(w, node, a, b) {
        let edge = |k: int| slots::first(w, from(follow(w, node, k as nat)->0));
        let edges = Seq::new(n, edge);
        assert forall|k: int| 0 <= k < n implies 0 <= #[trigger] edges[k] < w.len() by {
            lemma_chain_prefix(w, node, (k + 1) as nat, n);
            slots::lemma_first(w, from(follow(w, node, k as nat)->0));
        }
        assert forall|a: int, b: int| 0 <= a < b < n implies edges[a] != edges[b] by {
            if edges[a] == edges[b] {
                lemma_chain_prefix(w, node, a as nat, n);
                lemma_chain_prefix(w, node, b as nat, n);
                let x = follow(w, node, a as nat)->0;
                let y = follow(w, node, b as nat)->0;
                slots::lemma_first(w, from(x));
                slots::lemma_first(w, from(y));
                assert(edges[a] < w.len());
                assert(meets(w, node, a, b));
            }
        }
        edges.unique_seq_to_set();
        let all = vstd::set_lib::set_int_range(0, w.len() as int);
        vstd::set_lib::lemma_int_range(0, w.len() as int);
        assert(edges.to_set().subset_of(all)) by {
            assert forall|x: int| edges.to_set().contains(x) implies all.contains(x) by {
                let k = choose|k: int| 0 <= k < edges.len() && edges[k] == x;
                assert(edges[k] < w.len());
            }
        }
        vstd::set_lib::lemma_len_subset(edges.to_set(), all);
    }
}

/// A chain of `n` pagers has every shorter one.
proof fn lemma_chain_prefix(w: Seq<(u32, u32)>, node: u32, k: nat, n: nat)
    requires
        k <= n,
        follow(w, node, n) is Some,
    ensures
        follow(w, node, k) is Some,
{
    if follow(w, node, k) is None {
        lemma_chain_ends(w, node, k, n);
    }
}

/// Following `a` steps and then `b` is following `a + b`.
proof fn lemma_chain_split(w: Seq<(u32, u32)>, node: u32, a: nat, b: nat)
    requires
        follow(w, node, a) is Some,
    ensures
        follow(w, node, (a + b) as nat) == follow(w, follow(w, node, a)->0, b),
    decreases b,
{
    if b > 0 {
        lemma_chain_split(w, node, a, (b - 1) as nat);
    }
}

/// The guard's walk misses nothing: whatever a chain of page-ins in flight leads
/// to, it leads there in no more steps than there are page-ins.
pub proof fn law_a_chain_need_not_be_long(w: Seq<(u32, u32)>, node: u32, target: u32, n: nat)
    requires
        1 <= n,
        follow(w, node, n) == Some(target),
    ensures
        exists|k: nat| 1 <= k <= w.len() && #[trigger] follow(w, node, k) == Some(target),
    decreases n,
{
    if n > w.len() {
        lemma_long_chain_repeats(w, node, n);
        let (a, b) = choose|a: int, b: int| 0 <= a < b < n && #[trigger] meets(w, node, a, b);
        lemma_chain_prefix(w, node, a as nat, n);
        lemma_chain_prefix(w, node, b as nat, n);
        lemma_chain_split(w, node, b as nat, (n - b) as nat);
        lemma_chain_split(w, node, a as nat, (n - b) as nat);
        law_a_chain_need_not_be_long(w, node, target, (a + n - b) as nat);
    }
}

/// A chain in the graph with one edge more either is a chain of the old graph
/// or has come through that edge.
proof fn lemma_new_chain(w: Seq<(u32, u32)>, r: u32, s: u32, node: u32, n: nat)
    requires
        awaited(w, r) is None,
        follow(w.push((r, s)), node, n) is Some,
    ensures
        follow(w.push((r, s)), node, n) == follow(w, node, n) || (exists|k: nat|
            k < n && follow(w, node, k) == Some(r) && #[trigger] follow(
                w.push((r, s)),
                node,
                k,
            ) == Some(r)),
    decreases n,
{
    let v = w.push((r, s));
    if n > 0 {
        lemma_chain_prefix(v, node, (n - 1) as nat, n);
        lemma_new_chain(w, r, s, node, (n - 1) as nat);
        if follow(v, node, (n - 1) as nat) == follow(w, node, (n - 1) as nat) {
            let m = follow(w, node, (n - 1) as nat)->0;
            if m == r {
                assert(follow(v, node, (n - 1) as nat) == Some(r));
            } else {
                lemma_old_edges(w, r, s, m);
            }
        } else {
            let k = choose|k: nat|
                k < n - 1 && follow(w, node, k) == Some(r) && #[trigger] follow(v, node, k)
                    == Some(r);
            assert(follow(v, node, k) == Some(r));
        }
    }
}

/// A new edge changes nobody's successor but its own waiter's.
proof fn lemma_old_edges(w: Seq<(u32, u32)>, r: u32, s: u32, m: u32)
    requires
        awaited(w, r) is None,
    ensures
        m != r ==> awaited(w.push((r, s)), m) == awaited(w, m),
        awaited(w.push((r, s)), r) == Some(s),
{
    let v = w.push((r, s));
    slots::lemma_first(w, from(m));
    slots::lemma_first(w, from(r));
    slots::lemma_first(v, from(m));
    slots::lemma_first(v, from(r));
    slots::lemma_first_is(v, from(r), w.len() as int);
    if m != r {
        let f = slots::first(w, from(m));
        if f < w.len() {
            slots::lemma_first_is(v, from(m), f);
        } else {
            slots::lemma_first_is(v, from(m), v.len() as int);
        }
    }
}

/// A served page-in is one more in flight, and completing it undoes it.
pub proof fn law_a_served_page_in_is_in_flight(g: GraphView, requester: u32, s: u32)
    requires
        awaited(g.waits, requester) is None,
    ensures
        g.requested(requester, s).waits.len() == g.waits.len() + 1,
        awaited(g.requested(requester, s).waits, requester) == Some(s),
        g.requested(requester, s).completed(requester) == g,
{
    let v = g.requested(requester, s);
    lemma_old_edges(g.waits, requester, s, requester);
    slots::lemma_first(g.waits, from(requester));
    slots::lemma_first_is(v.waits, from(requester), g.waits.len() as int);
    assert(v.completed(requester) =~= g);
}

/// Served requests never wait in a circle: if no pager waits for itself, and
/// the requester has nothing else in flight, then recording a request that the
/// guard serves leaves no pager waiting for itself.
pub proof fn law_served_requests_never_deadlock(g: GraphView, requester: u32, object: u64)
    requires
        g.wf(),
        acyclic(g.waits),
        awaited(g.waits, requester) is None,
        !g.refuses(requester, object),
    ensures
        acyclic(g.requested(requester, server(g.bindings, object)->0).waits),
{
    let w = g.waits;
    let s = server(g.bindings, object)->0;
    let v = w.push((requester, s));
    assert forall|node: u32| !#[trigger] reachable(v, node, node) by {
        if reachable(v, node, node) {
            let n = choose|n: nat| 1 <= n && #[trigger] follow(v, node, n) == Some(node);
            lemma_new_chain(w, requester, s, node, n);
            if follow(v, node, n) == follow(w, node, n) {
                assert(reachable(w, node, node));
            } else {
                let k = choose|k: nat|
                    k < n && follow(w, node, k) == Some(requester) && #[trigger] follow(
                        v,
                        node,
                        k,
                    ) == Some(requester);
                // node -k-> requester -> s -...-> node, and on to requester.
                lemma_old_edges(w, requester, s, requester);
                lemma_chain_split(v, node, (k + 1) as nat, (n - k - 1) as nat);
                lemma_chain_prefix(v, node, (k + 1) as nat, n);
                assert(follow(v, node, (k + 1) as nat) == Some(s));
                assert(follow(v, s, (n - k - 1) as nat) == Some(node));
                lemma_new_chain(w, requester, s, s, (n - k - 1) as nat);
                if follow(v, s, (n - k - 1) as nat) == follow(w, s, (n - k - 1) as nat) {
                    lemma_chain_split(w, s, (n - k - 1) as nat, k);
                    lemma_reaches_requester(w, s, requester, (n - k - 1 + k) as nat);
                } else {
                    let j = choose|j: nat|
                        j < n - k - 1 && follow(w, s, j) == Some(requester) && #[trigger] follow(
                            v,
                            s,
                            j,
                        ) == Some(requester);
                    lemma_reaches_requester(w, s, requester, j);
                }
            }
        }
    }
}

proof fn lemma_reaches_requester(w: Seq<(u32, u32)>, s: u32, r: u32, n: nat)
    requires
        follow(w, s, n) == Some(r),
        s != r,
    ensures
        reachable(w, s, r),
{
    assert(n >= 1);
}

/// Eviction reclaims clean pages only, and a page that is neither evicted nor
/// forgotten stays.
pub proof fn law_eviction_never_takes_a_dirty_page(c: CacheView, offset: u64, other: u64)
    requires
        c.wf(),
        c.evictable(offset),
        other != offset,
    ensures
        !c.is_dirty(offset),
        c.forgotten(offset).resident(other) == c.resident(other),
        c.forgotten(offset).is_dirty(other) == c.is_dirty(other),
        c.forgotten(offset).dirty_count() == c.dirty_count(),
{
    let d = c.forgotten(offset);
    slots::lemma_first(c.pages, page_at(offset));
    slots::lemma_first(c.pages, page_at(other));
    slots::lemma_count_update(c.pages, dirty(), c.slot(offset), None);
    let at = c.slot(other);
    if at < c.pages.len() {
        slots::lemma_first_is(d.pages, page_at(other), at);
    } else {
        slots::lemma_first_is(d.pages, page_at(other), d.pages.len() as int);
    }
}

/// A pager death loses exactly the dirty pages: an offset is reported if and
/// only if its page was dirty.
pub proof fn law_fault_reports_exactly_the_dirty_pages(
    c: CacheView,
    before: Seq<u64>,
    out: Seq<u64>,
    lost: int,
    offset: u64,
)
    requires
        c.wf(),
        reports(before, out, lost, dirty_list(c.pages)),
        dirty_list(c.pages).len() <= before.len(),
    ensures
        out.take(lost).contains(offset) == c.is_dirty(offset),
        lost == c.dirty_count(),
{
    let d = dirty_list(c.pages);
    assert(d.take(lost) =~= d);
    vstd::seq_lib::to_multiset_contains(out.take(lost), offset);
    vstd::seq_lib::to_multiset_contains(d, offset);
    lemma_dirty_list(c.pages, offset);
    slots::lemma_first(c.pages, page_at(offset));
    if d.contains(offset) {
        let i = choose|i: int|
            0 <= i < c.pages.len() && dirty()(#[trigger] c.pages[i]) && c.pages[i]->0.offset
                == offset;
        lemma_slot_is(c, offset, i);
    }
    if c.is_dirty(offset) {
        assert(dirty()(c.pages[c.slot(offset)]));
    }
}

/// A report with room for every dirty page starts with the lowest one, and is
/// empty only when nothing is dirty.
pub proof fn lemma_reported(c: CacheView, before: Seq<u64>, out: Seq<u64>, n: int)
    requires
        c.wf(),
        reports(before, out, n, dirty_list(c.pages)),
        c.pages.len() <= before.len(),
    ensures
        n == 0 ==> !slots::any(c.pages, dirty()),
        n > 0 ==> c.is_dirty(out[0]) && slots::any(c.pages, dirty()) && forall|i: int|
            0 <= i < c.pages.len() && dirty()(#[trigger] c.pages[i]) ==> out[0]
                <= c.pages[i]->0.offset,
{
    slots::lemma_count_bound(c.pages, dirty());
    lemma_dirty_list(c.pages, 0);
    let d = dirty_list(c.pages);
    assert forall|i: int| 0 <= i < c.pages.len() && dirty()(#[trigger] c.pages[i]) implies n > 0
        && out[0] <= c.pages[i]->0.offset by {
        let offset = c.pages[i]->0.offset;
        lemma_slot_is(c, offset, i);
        law_fault_reports_exactly_the_dirty_pages(c, before, out, n, offset);
        let k = choose|k: int| 0 <= k < n && out.take(n)[k] == offset;
        assert(out.take(n)[0] <= out.take(n)[k]);
    }
    if n > 0 {
        law_fault_reports_exactly_the_dirty_pages(c, before, out, n, out[0]);
        assert(out.take(n)[0] == out[0]);
        slots::lemma_first(c.pages, page_at(out[0]));
        assert(dirty()(c.pages[c.slot(out[0])]));
    }
}

/// What the list of dirty offsets holds.
proof fn lemma_dirty_list(pages: Seq<Option<PageEntry>>, offset: u64)
    ensures
        dirty_list(pages).contains(offset) == (exists|i: int|
            0 <= i < pages.len() && dirty()(#[trigger] pages[i]) && pages[i]->0.offset == offset),
        dirty_list(pages).len() == slots::count(pages, dirty()),
    decreases pages.len(),
{
    if pages.len() > 0 {
        let rest = pages.drop_last();
        let d = dirty_list(rest);
        let all = dirty_list(pages);
        lemma_dirty_list(rest, offset);
        if all.contains(offset) {
            let k = choose|k: int| 0 <= k < all.len() && all[k] == offset;
            if k < d.len() {
                assert(d[k] == offset);
                let i = choose|i: int|
                    0 <= i < rest.len() && dirty()(#[trigger] rest[i]) && rest[i]->0.offset
                        == offset;
                assert(dirty()(pages[i]));
            } else {
                assert(dirty()(pages[pages.len() - 1]));
            }
        }
        if exists|i: int|
            0 <= i < pages.len() && dirty()(#[trigger] pages[i]) && pages[i]->0.offset == offset {
            let i = choose|i: int|
                0 <= i < pages.len() && dirty()(#[trigger] pages[i]) && pages[i]->0.offset
                    == offset;
            if i < rest.len() {
                assert(dirty()(rest[i]));
                let k = choose|k: int| 0 <= k < d.len() && d[k] == offset;
                assert(all[k] == offset);
            } else {
                assert(all[all.len() - 1] == offset);
            }
        }
    }
}

/// A store during a write-back is never lost: closing the window reports it,
/// and the page is still dirty.
pub proof fn law_overtaking_store_is_reported(c: CacheView, offset: u64)
    requires
        c.wf(),
        c.write_back_begun(offset).admits_store(offset),
    ensures
        ({
            let d = c.write_back_begun(offset).stored(offset);
            d.page(offset).overtaken && d.write_back_ended(offset).is_dirty(offset)
        }),
        !c.write_back_begun(offset).page(offset).overtaken,
{
    slots::lemma_first(c.pages, page_at(offset));
    let b = c.write_back_begun(offset);
    if c.resident(offset) {
        let p = c.page(offset);
        lemma_with_page(c, offset, PageEntry { writing: true, overtaken: false, ..p });
        let q = b.page(offset);
        lemma_with_page(
            b,
            offset,
            PageEntry { dirty: true, overtaken: q.overtaken || q.writing, ..q },
        );
        let d = b.stored(offset);
        let r = d.page(offset);
        lemma_with_page(d, offset, PageEntry { writing: false, overtaken: false, ..r });
    }
}

/// A page is resident, or dirty, exactly when the cache has an entry for its
/// offset that says so.
pub proof fn law_a_page_is_what_its_entry_says(c: CacheView, offset: u64)
    requires
        c.wf(),
    ensures
        c.resident(offset) <==> exists|k: int|
            0 <= k < c.pages.len() && (#[trigger] c.pages[k] matches Some(p) && p.offset == offset),
        c.is_dirty(offset) <==> exists|k: int|
            0 <= k < c.pages.len() && (#[trigger] c.pages[k] matches Some(p) && p.offset == offset
                && p.dirty),
        forall|k: int|
            0 <= k < c.pages.len() && (#[trigger] c.pages[k] matches Some(p) && p.offset == offset)
                ==> c.page(offset) == c.pages[k]->0,
{
    slots::lemma_first(c.pages, page_at(offset));
    if c.resident(offset) {
        assert(page_at(offset)(c.pages[c.slot(offset)]));
        assert(c.pages[c.slot(offset)] is Some);
    }
    assert forall|k: int|
        0 <= k < c.pages.len() && (#[trigger] c.pages[k] matches Some(p) && p.offset
            == offset) implies c.slot(offset) == k by {
        assert(page_at(offset)(c.pages[k]));
        lemma_slot_is(c, offset, k);
    }
}

/// Whether a page has any of what it had is up to its own entry.
proof fn lemma_one_entry(c: CacheView, offset: u64, p: PageEntry, other: u64)
    requires
        c.wf(),
        c.resident(offset),
        p.offset == offset,
        p.dirty ==> c.page(offset).dirty || c.dirty_count() < c.dirty_limit,
    ensures
        ({
            let d = c.with_page(offset, p);
            &&& d.wf()
            &&& d.page(offset) == p
            &&& d.resident(other) == c.resident(other)
            &&& d.resident(offset)
            &&& other != offset ==> d.is_dirty(other) == c.is_dirty(other)
            &&& other != offset && c.resident(other) ==> d.page(other) == c.page(other)
            &&& d.is_dirty(offset) == p.dirty
            &&& d.dirty_count() + (if c.page(offset).dirty {
                1int
            } else {
                0
            }) == c.dirty_count() + (if p.dirty {
                1int
            } else {
                0
            })
            &&& d.dirty_limit == c.dirty_limit && d.faulted == c.faulted
        }),
{
    let d = c.with_page(offset, p);
    let at = c.slot(offset);
    lemma_with_page(c, offset, p);
    slots::lemma_first(c.pages, page_at(offset));
    slots::lemma_count_update(c.pages, dirty(), at, Some(p));
    slots::lemma_first(c.pages, page_at(other));
    let o = c.slot(other);
    if other != offset {
        assert forall|j: int| 0 <= j < o implies !page_at(other)(#[trigger] d.pages[j]) by {
            assert(!page_at(other)(c.pages[j]));
        }
        slots::lemma_first_is(d.pages, page_at(other), o);
    }
}

/// A page is clean only once its pager has said so: opening and closing the
/// window of a write-back changes neither what is resident nor what is dirty,
/// and only that page's window.
pub proof fn law_a_write_back_window_cleans_nothing(c: CacheView, offset: u64, other: u64)
    requires
        c.wf(),
    ensures
        c.write_back_begun(offset).is_dirty(other) == c.is_dirty(other),
        c.write_back_begun(offset).resident(other) == c.resident(other),
        c.write_back_begun(offset).dirty_count() == c.dirty_count(),
        c.write_back_begun(offset).dirty_limit == c.dirty_limit,
        c.write_back_begun(offset).faulted == c.faulted,
        c.write_back_ended(offset).is_dirty(other) == c.is_dirty(other),
        c.write_back_ended(offset).resident(other) == c.resident(other),
        c.write_back_ended(offset).dirty_count() == c.dirty_count(),
        c.write_back_ended(offset).dirty_limit == c.dirty_limit,
        c.write_back_ended(offset).faulted == c.faulted,
        c.resident(offset) ==> {
            &&& c.write_back_begun(offset).page(offset).writing
            &&& !c.write_back_begun(offset).page(offset).overtaken
            &&& !c.write_back_ended(offset).page(offset).writing
            &&& !c.write_back_ended(offset).page(offset).overtaken
        },
        other != offset && c.resident(other) ==> {
            &&& c.write_back_begun(offset).page(other) == c.page(other)
            &&& c.write_back_ended(offset).page(other) == c.page(other)
        },
{
    slots::lemma_first(c.pages, page_at(offset));
    if c.resident(offset) {
        let p = c.page(offset);
        let b = PageEntry { writing: true, overtaken: false, ..p };
        let e = PageEntry { writing: false, overtaken: false, ..p };
        lemma_one_entry(c, offset, b, other);
        lemma_one_entry(c, offset, e, other);
        assert(c.write_back_begun(offset) == c.with_page(offset, b));
        assert(c.write_back_ended(offset) == c.with_page(offset, e));
    }
}

/// An acknowledged page is clean, still resident, and no other page changes.
pub proof fn law_an_acknowledged_page_is_clean(c: CacheView, offset: u64, other: u64)
    requires
        c.wf(),
        other != offset,
    ensures
        !c.cleaned(offset).is_dirty(offset),
        c.cleaned(offset).resident(offset) == c.resident(offset),
        c.cleaned(offset).resident(other) == c.resident(other),
        c.cleaned(offset).is_dirty(other) == c.is_dirty(other),
        c.is_dirty(offset) ==> c.cleaned(offset).dirty_count() + 1 == c.dirty_count(),
        !c.is_dirty(offset) ==> c.cleaned(offset).dirty_count() == c.dirty_count(),
        c.resident(offset) ==> c.cleaned(offset).page(offset).writing == c.page(offset).writing
            && c.cleaned(offset).page(offset).overtaken == c.page(offset).overtaken,
        c.cleaned(offset).faulted == c.faulted,
        c.cleaned(offset).dirty_limit == c.dirty_limit,
{
    slots::lemma_first(c.pages, page_at(offset));
    if c.resident(offset) {
        let p = PageEntry { dirty: false, ..c.page(offset) };
        lemma_one_entry(c, offset, p, other);
        assert(c.cleaned(offset) == c.with_page(offset, p));
    }
}

/// A store makes its page dirty and no other. It is admitted where the page is
/// resident and either dirty already or within the object's bound, and a store
/// into an open window is remembered.
pub proof fn law_a_store_dirties_its_page(c: CacheView, offset: u64, other: u64)
    requires
        c.wf(),
        other != offset,
    ensures
        c.admits_store(offset) <==> c.resident(offset) && (c.is_dirty(offset) || c.dirty_count()
            < c.dirty_limit),
        c.admits_store(offset) ==> {
            let d = c.stored(offset);
            &&& d.is_dirty(offset)
            &&& d.resident(other) == c.resident(other)
            &&& d.is_dirty(other) == c.is_dirty(other)
            &&& d.page(offset).writing == c.page(offset).writing
            &&& c.page(offset).writing ==> d.page(offset).overtaken
            &&& !c.page(offset).writing ==> d.page(offset).overtaken == c.page(offset).overtaken
            &&& c.is_dirty(offset) ==> d.dirty_count() == c.dirty_count()
            &&& !c.is_dirty(offset) ==> d.dirty_count() == c.dirty_count() + 1
            &&& d.dirty_count() <= d.dirty_limit
            &&& d.faulted == c.faulted && d.dirty_limit == c.dirty_limit
        },
{
    slots::lemma_first(c.pages, page_at(offset));
    if c.admits_store(offset) {
        let p = c.page(offset);
        let q = PageEntry { dirty: true, overtaken: p.overtaken || p.writing, ..p };
        lemma_one_entry(c, offset, q, other);
        assert(c.stored(offset) == c.with_page(offset, q));
    }
}

/// A page that is supplied is resident and clean; one that was there already
/// keeps what it has, and no other page changes.
pub proof fn law_a_supplied_page_is_clean(c: CacheView, offset: u64, other: u64)
    requires
        c.wf(),
        other != offset,
        !c.resident(offset) ==> exists|k: int| 0 <= k < c.pages.len() && #[trigger] c.pages[k] is None,
    ensures
        ({
            let d = c.installed(offset);
            &&& d.resident(offset)
            &&& c.resident(offset) ==> d == c
            &&& !c.resident(offset) ==> !d.is_dirty(offset) && !d.page(offset).writing
                && !d.page(offset).overtaken
            &&& d.resident(other) == c.resident(other)
            &&& d.is_dirty(other) == c.is_dirty(other)
            &&& d.dirty_count() == c.dirty_count()
            &&& d.faulted == c.faulted && d.dirty_limit == c.dirty_limit
        }),
{
    let d = c.installed(offset);
    slots::lemma_first(c.pages, page_at(offset));
    if !c.resident(offset) {
        let free = slots::free::<PageEntry>();
        let k = choose|k: int| 0 <= k < c.pages.len() && #[trigger] c.pages[k] is None;
        slots::lemma_first(c.pages, free);
        let at = c.vacancy();
        if at == c.pages.len() {
            assert(!free(c.pages[k]));
        }
        assert(free(c.pages[at]));
        let p = PageEntry { offset, dirty: false, writing: false, overtaken: false };
        slots::lemma_count_update(c.pages, dirty(), at, Some(p));
        assert forall|j: int| 0 <= j < at implies !page_at(offset)(#[trigger] d.pages[j]) by {
            assert(!page_at(offset)(c.pages[j]));
        }
        assert(page_at(offset)(d.pages[at]));
        slots::lemma_first_is(d.pages, page_at(offset), at);
        slots::lemma_first(c.pages, page_at(other));
        let o = c.slot(other);
        assert forall|j: int| 0 <= j < o implies !page_at(other)(#[trigger] d.pages[j]) by {
            assert(!page_at(other)(c.pages[j]));
        }
        slots::lemma_first_is(d.pages, page_at(other), o);
    }
}

/// A forgotten page is not resident, and no other page changes.
pub proof fn law_a_forgotten_page_is_gone(c: CacheView, offset: u64, other: u64)
    requires
        c.wf(),
        other != offset,
    ensures
        !c.forgotten(offset).resident(offset),
        c.forgotten(offset).resident(other) == c.resident(other),
        c.forgotten(offset).is_dirty(other) == c.is_dirty(other),
        c.is_dirty(offset) ==> c.forgotten(offset).dirty_count() + 1 == c.dirty_count(),
        !c.is_dirty(offset) ==> c.forgotten(offset).dirty_count() == c.dirty_count(),
        c.forgotten(offset).faulted == c.faulted,
        c.forgotten(offset).dirty_limit == c.dirty_limit,
{
    let d = c.forgotten(offset);
    slots::lemma_first(c.pages, page_at(offset));
    if c.resident(offset) {
        let at = c.slot(offset);
        slots::lemma_count_update(c.pages, dirty(), at, None);
        assert forall|j: int| 0 <= j < d.pages.len() implies !page_at(offset)(
            #[trigger] d.pages[j],
        ) by {
            if j != at && page_at(offset)(d.pages[j]) {
                lemma_slot_is(c, offset, j);
            }
        }
        slots::lemma_first_is(d.pages, page_at(offset), d.pages.len() as int);
        slots::lemma_first(c.pages, page_at(other));
        let o = c.slot(other);
        assert forall|j: int| 0 <= j < o implies !page_at(other)(#[trigger] d.pages[j]) by {
            assert(!page_at(other)(c.pages[j]));
        }
        slots::lemma_first_is(d.pages, page_at(other), o);
    }
}

/// What may be evicted is the clean page with the lowest offset.
pub proof fn law_the_lowest_clean_page_goes_first(c: CacheView, offset: u64, other: u64)
    requires
        c.wf(),
        c.evictable(offset),
        c.resident(other),
    ensures
        c.resident(offset),
        !c.is_dirty(offset),
        !c.is_dirty(other) ==> offset <= other,
{
    slots::lemma_first(c.pages, page_at(other));
    if !c.is_dirty(other) {
        assert(clean()(c.pages[c.slot(other)]));
    }
}

/// Once its pager is dead an object has no pages, and says so.
pub proof fn law_a_faulted_object_holds_nothing(c: CacheView, offset: u64)
    ensures
        c.after_fault().faulted,
        !c.after_fault().resident(offset),
        c.after_fault().dirty_count() == 0,
        c.after_fault().dirty_limit == c.dirty_limit,
        !CacheView::fresh(c.dirty_limit).faulted,
        !CacheView::fresh(c.dirty_limit).resident(offset),
        CacheView::fresh(c.dirty_limit).dirty_limit == c.dirty_limit,
{
    let d = c.after_fault();
    slots::lemma_count_zero(d.pages, dirty());
    slots::lemma_first_is(d.pages, page_at(offset), d.pages.len() as int);
    let f = CacheView::fresh(c.dirty_limit);
    slots::lemma_first_is(f.pages, page_at(offset), f.pages.len() as int);
}

/// A page-in is refused exactly when nobody serves the object, or whoever does
/// is the requester or waits, through any number of others, for the requester.
/// The server of an object is the pager bound to it first.
pub proof fn law_only_a_cycle_is_refused(g: GraphView, requester: u32, object: u64)
    ensures
        (forall|k: int| 0 <= k < g.bindings.len() ==> (#[trigger] g.bindings[k]).0 != object)
            ==> g.refuses(requester, object),
        forall|k: int|
            0 <= k < g.bindings.len() && (#[trigger] g.bindings[k]).0 == object && (forall|j: int|
                0 <= j < k ==> (#[trigger] g.bindings[j]).0 != object) ==> {
                let s = g.bindings[k].1;
                &&& server(g.bindings, object) == Some(s)
                &&& g.refuses(requester, object) <==> s == requester || exists|n: nat|
                    1 <= n && #[trigger] follow(g.waits, s, n) == Some(requester)
            },
        forall|s: u32|
            #![trigger g.requested(requester, s)]
            g.requested(requester, s).bindings == g.bindings && g.requested(requester, s).waits
                == g.waits.push((requester, s)),
{
    slots::lemma_first(g.bindings, serves(object));
    let at = slots::first(g.bindings, serves(object));
    if at < g.bindings.len() {
        assert(serves(object)(g.bindings[at]));
    }
    assert forall|k: int|
        0 <= k < g.bindings.len() && (#[trigger] g.bindings[k]).0 == object && (forall|j: int|
            0 <= j < k ==> (#[trigger] g.bindings[j]).0 != object) implies at == k by {
        if k < at {
            assert(!serves(object)(g.bindings[k]));
        }
    }
}

/// Who waits for whom is what the edges say: a node's first edge leads on, and
/// following goes from edge to edge.
pub proof fn law_following_goes_from_edge_to_edge(waits: Seq<(u32, u32)>, node: u32, k: int, n: nat)
    requires
        0 <= k < waits.len(),
        waits[k].0 == node,
        forall|j: int| 0 <= j < k ==> (#[trigger] waits[j]).0 != node,
    ensures
        follow(waits, node, 0) == Some(node),
        follow(waits, node, 1) == Some(waits[k].1),
        follow(waits, node, n + 1) == follow(waits, waits[k].1, n),
    decreases n,
{
    slots::lemma_first_is(waits, from(node), k);
    assert(follow(waits, node, 0) == Some(node));
    assert(follow(waits, node, 1) == Some(waits[k].1));
    if n > 0 {
        law_following_goes_from_edge_to_edge(waits, node, k, (n - 1) as nat);
    }
}

/// A page-in that completes takes its requester's one edge away and leaves every
/// other one.
pub proof fn law_completing_clears_one_edge(g: GraphView, requester: u32, k: int)
    requires
        0 <= k < g.waits.len(),
        g.waits[k].0 == requester,
        forall|j: int| 0 <= j < g.waits.len() && j != k ==> (#[trigger] g.waits[j]).0 != requester,
    ensures
        g.completed(requester).bindings == g.bindings,
        g.completed(requester).waits.to_multiset() == g.waits.to_multiset().remove(g.waits[k]),
        forall|j: int|
            0 <= j < g.completed(requester).waits.len() ==> (#[trigger] g.completed(
                requester,
            ).waits[j]).0 != requester,
{
    slots::lemma_first_is(g.waits, from(requester), k);
    let w = g.waits;
    let n = w.len() - 1;
    let d = g.completed(requester).waits;
    assert(w.drop_last().push(w.last()) =~= w);
    w.drop_last().to_multiset_ensures();
    w.to_multiset_ensures();
    if k < n {
        let t = w.drop_last();
        assert(d =~= t.update(k, w.last()));
        vstd::seq_lib::to_multiset_update(t, k, w.last());
        assert(w.to_multiset() =~= t.to_multiset().insert(w.last()));
        assert(t.to_multiset().count(w[k]) > 0) by {
            vstd::seq_lib::to_multiset_contains(t, w[k]);
            assert(t[k] == w[k]);
        }
        assert(d.to_multiset() =~= w.to_multiset().remove(w[k]));
    } else {
        assert(d =~= w.drop_last());
        assert(d.to_multiset() =~= w.to_multiset().remove(w[k]));
    }
}

/// Every so many misses one is escalated, and between two of those none is; a
/// miss is counted either way.
pub proof fn law_every_so_many_misses_escalate(s: PageInSupervisor)
    requires
        s.wf(),
        s.misses < u32::MAX,
    ensures
        s.missed().misses == s.misses + 1,
        s.missed().deadline == s.deadline,
        s.missed().escalate_after == s.escalate_after,
        s.escalates() <==> s.missed().misses as int % s.escalate_after as int == 0,
        s.missed().escalations == s.missed().misses / s.escalate_after,
        s.missed().escalations == s.escalations + (if s.escalates() {
            1int
        } else {
            0
        }),
{
    lemma_next_multiple(s.misses as int, s.escalate_after as int);
}

/// The ordinary path is pressed exactly when what is outside the reservation is
/// all in use.
pub proof fn law_pressure_is_everything_but_the_reservation(r: WriteBackReservation)
    requires
        r.wf(),
    ensures
        r.pressed() <==> r.ordinary_in_use + r.reserved == r.capacity,
{
}

} // verus!
