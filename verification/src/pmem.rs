//! Physical memory: a bump allocator over the boot memory map, with a free
//! list and reference counts for shared frames, and a pool of frames drawn in
//! advance for a CPU that does not own an allocator.
use vstd::prelude::*;
use crate::config::{FRAME_SIZE, MAX_FREE_FRAMES, MAX_SHARED_FRAMES};
use crate::frame::{
    asked, draw_of, draws, dry_after, hands_out, lemma_asked_nothing, lemma_hands_out, FrameLedger,
    FrameOp, FrameSource, PhysFrame,
};
use crate::slots;

verus! {

/// Why a frame could not be reclaimed: there is no room among the free ones.
pub const RECLAIM_OVERFLOW_FREE_LIST_FULL: u64 = 1;

/// There is no room to count one more shared frame.
pub const RECLAIM_OVERFLOW_SHARED_TABLE_FULL: u64 = 2;

/// A memory object's frames were not reclaimed because a device could still
/// reach them.
pub const RECLAIM_REFUSED_STILL_ATTACHED: u64 = 3;

/// A frame that leaks, and why: which bound was met, and how large it is.
#[derive(Clone, Copy, PartialEq, Eq, Debug, Structural)]
pub struct ReclaimOverflow {
    pub cause: u64,
    pub bound: u64,
    pub frame: u64,
}

/// The record that there was no room for `base` among the free frames.
pub open spec fn free_list_full(base: u64) -> ReclaimOverflow {
    ReclaimOverflow {
        cause: RECLAIM_OVERFLOW_FREE_LIST_FULL,
        bound: MAX_FREE_FRAMES as u64,
        frame: base,
    }
}

/// The record that one more reference to `base` could not be counted.
pub open spec fn shared_table_full(base: u64) -> ReclaimOverflow {
    ReclaimOverflow {
        cause: RECLAIM_OVERFLOW_SHARED_TABLE_FULL,
        bound: MAX_SHARED_FRAMES as u64,
        frame: base,
    }
}

/// What a region of the boot memory map is.
#[derive(Clone, Copy, PartialEq, Eq, Debug, Structural)]
pub enum MemoryKind {
    Usable,
    Reserved,
}

/// One region of the boot memory map.
#[derive(Clone, Copy, PartialEq, Eq, Debug, Structural)]
pub struct MemoryRegion {
    pub base: u64,
    pub len: u64,
    pub kind: MemoryKind,
}

/// `x` rounded up to a frame boundary.
pub open spec fn round_up(x: int) -> int {
    (x + FRAME_SIZE - 1) / FRAME_SIZE as int * FRAME_SIZE
}

/// `x` rounded down to a frame boundary.
pub open spec fn round_down(x: int) -> int {
    x / FRAME_SIZE as int * FRAME_SIZE
}

/// The whole frames of `r`, from the first byte to past the last one, if it is
/// usable, does not wrap, and holds any.
pub open spec fn whole_frames(r: MemoryRegion) -> Option<(int, int)> {
    let start = round_up(r.base as int);
    let end = round_down(r.base + r.len);
    if r.kind == MemoryKind::Usable && r.base + r.len <= u64::MAX && r.base + FRAME_SIZE - 1
        <= u64::MAX && start < end {
        Some((start, end))
    } else {
        None
    }
}

/// The whole frames of region `i`, if there is such a region.
pub open spec fn bounds(map: Seq<MemoryRegion>, i: int) -> Option<(int, int)> {
    if 0 <= i < map.len() {
        whole_frames(map[i])
    } else {
        None
    }
}

/// Where optional bounds start.
pub open spec fn low(b: Option<(int, int)>) -> int {
    match b {
        Some((start, _)) => start,
        None => 0,
    }
}

/// Where optional bounds end.
pub open spec fn high(b: Option<(int, int)>) -> int {
    match b {
        Some((_, end)) => end,
        None => 0,
    }
}

/// The usable regions are in order and do not overlap.
pub open spec fn ordered(map: Seq<MemoryRegion>) -> bool {
    forall|i: int, j: int|
        0 <= i < j < map.len() && (#[trigger] bounds(map, i)) is Some && (#[trigger] bounds(
            map,
            j,
        )) is Some ==> high(bounds(map, i)) <= low(bounds(map, j))
}

/// The first region at or after `i` with whole frames, or the end of the map.
pub open spec fn next_region(map: Seq<MemoryRegion>, i: int) -> int
    decreases map.len() - i,
{
    if i >= map.len() || bounds(map, i) is Some {
        i
    } else {
        next_region(map, i + 1)
    }
}

/// What a [`BumpFrameAllocator`] holds.
#[verifier::ext_equal]
pub struct BumpView {
    pub map: Seq<MemoryRegion>,
    pub region: int,
    pub cursor: int,
    pub handed_out: int,
    pub free_list: Seq<u64>,
    pub shared: Seq<(u64, u32)>,
    /// Frames with a reference that could not be counted: shared for good.
    pub pinned: Seq<u64>,
    pub reclaim_overflows: u64,
    /// What leaked and has not been read yet, oldest first.
    pub leaks: Seq<ReclaimOverflow>,
    pub trace: Seq<FrameOp>,
}

/// The predicate of the entry of the shared frame at `base`.
pub open spec fn shares(base: u64) -> spec_fn((u64, u32)) -> bool {
    |e: (u64, u32)| e.0 == base
}

impl BumpView {
    /// The allocator's invariant: it has drawn no more than lies below its
    /// cursor, a shared frame has at least two references and one entry.
    pub open spec fn wf(self) -> bool {
        &&& ordered(self.map)
        &&& 0 <= self.region <= self.map.len()
        &&& 0 <= self.cursor <= u64::MAX
        &&& 0 <= self.handed_out
        &&& self.handed_out * FRAME_SIZE <= self.cursor
        &&& self.free_list.len() <= MAX_FREE_FRAMES
        &&& self.shared.len() <= MAX_SHARED_FRAMES
        &&& bounds(self.map, self.region) matches Some(b) ==> b.0 <= self.cursor <= b.1
            && self.cursor % FRAME_SIZE as int == 0
        &&& self.region < self.map.len() ==> bounds(self.map, self.region) is Some
        &&& forall|i: int| 0 <= i < self.shared.len() ==> (#[trigger] self.shared[i]).1 >= 2
        &&& forall|i: int, j: int|
            0 <= i < j < self.shared.len() ==> (#[trigger] self.shared[i]).0 != (
            #[trigger] self.shared[j]).0
    }

    /// The next frame drawn from the map, and the allocator after it is drawn:
    /// the lowest untouched one of the current region, or else of the next.
    pub open spec fn bumped(self) -> (Option<PhysFrame>, BumpView)
        decreases self.map.len() - self.region,
        when self.wf()
    {
        match bounds(self.map, self.region) {
            None => (None, self),
            Some(b) => if self.cursor + FRAME_SIZE > u64::MAX {
                (None, self)
            } else if self.cursor + FRAME_SIZE <= b.1 {
                (
                    Some(PhysFrame(self.cursor as u64)),
                    BumpView {
                        cursor: self.cursor + FRAME_SIZE,
                        handed_out: self.handed_out + 1,
                        ..self
                    },
                )
            } else if self.moved_on().region >= self.map.len() {
                (None, self.moved_on())
            } else if self.moved_on().wf() && self.moved_on().region > self.region {
                self.moved_on().bumped()
            } else {
                (None, self)
            },
        }
    }

    /// The allocator at the start of the next usable region, if there is one.
    pub open spec fn moved_on(self) -> BumpView {
        self.at_region(self.region + 1)
    }

    /// The allocator at the start of the first usable region from `i` on.
    pub open spec fn at_region(self, i: int) -> BumpView {
        let r = next_region(self.map, i);
        BumpView {
            region: r,
            cursor: match bounds(self.map, r) {
                Some(b) => b.0,
                None => self.cursor,
            },
            ..self
        }
    }

    /// The frame an allocation hands out, and the allocator after it: the most
    /// recently freed frame if there is one, or else the next from the map.
    pub open spec fn allocated(self) -> (Option<PhysFrame>, BumpView) {
        if self.free_list.len() > 0 {
            let base = self.free_list.last();
            let rest = BumpView { free_list: self.free_list.drop_last(), ..self };
            if base % FRAME_SIZE == 0 {
                (Some(PhysFrame(base)), rest.noted(FrameOp::Drew(PhysFrame(base))))
            } else {
                (None, rest.noted(FrameOp::Refused))
            }
        } else {
            let (r, v) = self.bumped();
            (r, v.noted(draw_of(r)))
        }
    }

    /// The frames that `n` allocations hand out, and the allocator after them.
    pub open spec fn drawn(self, n: nat) -> (Seq<PhysFrame>, BumpView)
        decreases n,
    {
        if n == 0 {
            (Seq::empty(), self)
        } else {
            let (frames, v) = self.drawn((n - 1) as nat);
            match v.allocated().0 {
                Some(f) => (frames.push(f), v.allocated().1),
                None => (frames, v.allocated().1),
            }
        }
    }

    /// After `op` is asked of the allocator as a frame source.
    pub open spec fn took(self, op: FrameOp) -> BumpView {
        match op {
            FrameOp::Drew(_) => self.allocated().1,
            FrameOp::Refused => self.allocated().1,
            FrameOp::Retained(f) => self.retained(f.0).noted(op),
            FrameOp::Freed(f) => self.released(f.0).noted(op),
        }
    }

    /// After `ops` are asked of it, in order.
    pub open spec fn after(self, ops: Seq<FrameOp>) -> BumpView
        decreases ops.len(),
    {
        if ops.len() == 0 {
            self
        } else {
            self.after(ops.drop_last()).took(ops.last())
        }
    }

    /// With `op` noted in the trace.
    pub open spec fn noted(self, op: FrameOp) -> BumpView {
        BumpView { trace: self.trace.push(op), ..self }
    }

    /// Where the shared frame at `base` is, or the length of the table.
    pub open spec fn share(self, base: u64) -> int {
        slots::first(self.shared, shares(base))
    }

    /// How many references the frame at `base`, which is in use, has.
    pub open spec fn references(self, base: u64) -> int {
        if self.share(base) < self.shared.len() {
            self.shared[self.share(base)].1 as int
        } else {
            1
        }
    }

    /// With a leak counted and recorded.
    pub open spec fn overflowed(self, leak: ReclaimOverflow) -> BumpView {
        BumpView {
            leaks: self.leaks.push(leak),
            reclaim_overflows: if self.reclaim_overflows == u64::MAX {
                u64::MAX
            } else {
                (self.reclaim_overflows + 1) as u64
            },
            ..self
        }
    }

    /// After one more reference to the frame at `base`: counted, or, when the
    /// table is full, reported as an overflow and the frame shared for good.
    pub open spec fn retained(self, base: u64) -> BumpView {
        let i = self.share(base);
        if self.pinned.contains(base) {
            self.overflowed(shared_table_full(base))
        } else if i < self.shared.len() {
            BumpView {
                shared: self.shared.update(i, (base, (self.shared[i].1 + 1) as u32)),
                ..self
            }
        } else if self.shared.len() < MAX_SHARED_FRAMES {
            BumpView { shared: self.shared.push((base, 2)), ..self }
        } else {
            BumpView {
                pinned: self.pinned.push(base),
                ..self.overflowed(shared_table_full(base))
            }
        }
    }

    /// After one reference to the frame at `base` is given back: with the last
    /// one the frame is free for reuse, or, when the list is full, reported as
    /// an overflow. A frame shared for good stays as it is: which reference is
    /// its last is not known.
    pub open spec fn released(self, base: u64) -> BumpView {
        let i = self.share(base);
        if self.pinned.contains(base) {
            self
        } else if i < self.shared.len() {
            if self.shared[i].1 == 2 {
                BumpView {
                    shared: self.shared.update(i, self.shared.last()).drop_last(),
                    ..self
                }
            } else {
                BumpView {
                    shared: self.shared.update(i, (base, (self.shared[i].1 - 1) as u32)),
                    ..self
                }
            }
        } else if self.free_list.len() < MAX_FREE_FRAMES {
            BumpView { free_list: self.free_list.push(base), ..self }
        } else {
            self.overflowed(free_list_full(base))
        }
    }
}

/// How many whole frames the first `n` regions hold.
pub open spec fn frames_in(map: Seq<MemoryRegion>, n: int) -> int
    decreases n,
{
    if n <= 0 {
        0
    } else {
        frames_in(map, n - 1) + match bounds(map, n - 1) {
            Some(b) => (b.1 - b.0) / FRAME_SIZE as int,
            None => 0,
        }
    }
}

/// Frames are drawn from the usable regions of the boot memory map in order;
/// freed frames are reused first.
pub struct BumpFrameAllocator<'a> {
    map: &'a [MemoryRegion],
    /// Index of the region currently being consumed.
    region: usize,
    /// Next un-handed-out address within that region.
    cursor: u64,
    handed_out: u64,
    /// Freed frames available for reuse, most recent last.
    free_list: Vec<u64>,
    /// Reference counts of shared frames. A frame not listed has one.
    shared: Vec<(u64, u32)>,
    /// Frames with a reference that could not be counted. Never reclaimed.
    pinned: Vec<u64>,
    /// Reclaims that exceeded a bound.
    reclaim_overflows: u64,
    /// What leaked and has not been read yet.
    leaks: Vec<ReclaimOverflow>,
    trace: Ghost<Seq<FrameOp>>,
}

impl<'a> View for BumpFrameAllocator<'a> {
    type V = BumpView;

    closed spec fn view(&self) -> BumpView {
        BumpView {
            map: self.map@,
            region: self.region as int,
            cursor: self.cursor as int,
            handed_out: self.handed_out as int,
            free_list: self.free_list@,
            shared: self.shared@,
            pinned: self.pinned@,
            reclaim_overflows: self.reclaim_overflows,
            leaks: self.leaks@,
            trace: self.trace@,
        }
    }
}

/// Rounding stays within one frame and lands on a boundary.
proof fn lemma_rounding(x: int)
    requires
        x >= 0,
    ensures
        x <= round_up(x) < x + FRAME_SIZE,
        x - FRAME_SIZE < round_down(x) <= x,
        round_up(x) % FRAME_SIZE as int == 0,
        round_down(x) % FRAME_SIZE as int == 0,
        round_down(x) >= 0,
{
}

/// What [`next_region`] finds.
proof fn lemma_next_region(map: Seq<MemoryRegion>, i: int)
    requires
        0 <= i <= map.len(),
    ensures
        i <= next_region(map, i) <= map.len(),
        next_region(map, i) < map.len() ==> bounds(map, next_region(map, i)) is Some,
    decreases map.len() - i,
{
    if i < map.len() && bounds(map, i) is None {
        lemma_next_region(map, i + 1);
    }
}

/// Moving on to the next region keeps the invariant, and the cursor never goes
/// back.
proof fn lemma_moved_on(v: BumpView)
    requires
        v.wf(),
        v.region < v.map.len(),
    ensures
        v.moved_on().wf(),
        v.moved_on().region > v.region,
        v.moved_on().cursor >= v.cursor,
{
    lemma_next_region(v.map, v.region + 1);
    let r = next_region(v.map, v.region + 1);
    if r < v.map.len() {
        let b = v.map[r];
        lemma_rounding(b.base as int);
        lemma_rounding(b.base + b.len);
        assert(high(bounds(v.map, v.region)) <= low(bounds(v.map, r)));
        assert(v.handed_out * FRAME_SIZE <= v.moved_on().cursor);
    }
}

/// A draw from the map keeps the invariant; a frame drawn is whole, aligned,
/// inside a usable region, not below the old cursor, and the new cursor is
/// right after it.
pub proof fn law_drawn_frames_ascend(v: BumpView)
    requires
        v.wf(),
    ensures
        v.bumped().1.wf(),
        v.bumped().1.cursor >= v.cursor,
        v.bumped().1.map == v.map,
        v.bumped().1.free_list == v.free_list,
        v.bumped().1.shared == v.shared,
        v.bumped().1.pinned == v.pinned,
        v.bumped().1.trace == v.trace,
        v.bumped().1.reclaim_overflows == v.reclaim_overflows,
        v.bumped().1.leaks == v.leaks,
        match v.bumped().0 {
            Some(f) => {
                &&& f.0 >= v.cursor
                &&& f.0 % FRAME_SIZE == 0
                &&& v.bumped().1.cursor == f.0 + FRAME_SIZE
                &&& v.bumped().1.handed_out == v.handed_out + 1
                &&& exists|i: int|
                    (#[trigger] bounds(v.map, i)) matches Some(b) && b.0 <= f.0 && f.0 + FRAME_SIZE
                        <= b.1
            },
            None => v.bumped().1.handed_out == v.handed_out,
        },
    decreases v.map.len() - v.region,
{
    if bounds(v.map, v.region) is Some {
        let b = bounds(v.map, v.region)->0;
        if v.cursor + FRAME_SIZE <= u64::MAX {
            if v.cursor + FRAME_SIZE <= b.1 {
                assert((v.handed_out + 1) * FRAME_SIZE == v.handed_out * FRAME_SIZE + FRAME_SIZE)
                    by (nonlinear_arith);
                assert(bounds(v.map, v.region) is Some);
            } else {
                lemma_moved_on(v);
                if v.moved_on().region < v.map.len() {
                    law_drawn_frames_ascend(v.moved_on());
                }
            }
        }
    }
}

/// An allocation keeps the invariant, and when it hands a frame out, either the
/// free list is shorter or the cursor is further on.
proof fn lemma_allocated(v: BumpView)
    requires
        v.wf(),
    ensures
        v.allocated().1.wf(),
        v.allocated().1.cursor >= v.cursor,
        v.allocated().1.free_list.len() <= v.free_list.len(),
        v.allocated().0 is Some ==> v.allocated().1.free_list.len() < v.free_list.len()
            || v.allocated().1.cursor > v.cursor,
        v.allocated().1.trace == v.trace.push(draw_of(v.allocated().0)),
        v.allocated().0 matches Some(f) ==> f.0 % FRAME_SIZE == 0,
{
    law_drawn_frames_ascend(v);
}

impl<'a> BumpFrameAllocator<'a> {
    /// The allocator's invariant.
    pub open spec fn wf(&self) -> bool {
        self@.wf()
    }

    /// The usable regions of the map must be sorted and must not overlap.
    /// Malformed regions (wrapping, or with no whole frame) are skipped.
    pub fn new(map: &'a [MemoryRegion]) -> (a: BumpFrameAllocator<'a>)
        requires
            ordered(map@),
        ensures
            a.wf(),
            a@ == (BumpView {
                map: map@,
                region: 0,
                cursor: 0,
                handed_out: 0,
                free_list: Seq::empty(),
                shared: Seq::empty(),
                pinned: Seq::empty(),
                reclaim_overflows: 0,
                leaks: Seq::empty(),
                trace: Seq::empty(),
            }).at_region(0),
    {
        let mut a = BumpFrameAllocator {
            map,
            region: 0,
            cursor: 0,
            handed_out: 0,
            free_list: Vec::new(),
            shared: Vec::new(),
            pinned: Vec::new(),
            reclaim_overflows: 0,
            leaks: Vec::new(),
            trace: Ghost(Seq::empty()),
        };
        let ghost v = a@;
        a.advance_to_usable_region(0);
        proof {
            lemma_next_region(map@, 0);
            let r = next_region(map@, 0);
            if r < map@.len() {
                lemma_rounding(map@[r].base as int);
                lemma_rounding(map@[r].base + map@[r].len);
            }
        }
        a
    }

    /// Hands out the next free frame, or `None` when physical memory is
    /// exhausted. Reusing a freed frame does not count as handing one out.
    pub fn allocate(&mut self) -> (r: Option<PhysFrame>)
        requires
            old(self).wf(),
        ensures
            final(self).wf(),
            r == old(self)@.allocated().0,
            final(self)@ == old(self)@.allocated().1,
    {
        let ghost v = self@;
        proof {
            lemma_allocated(v);
        }
        if self.free_list.len() > 0 {
            let popped = self.free_list.pop();
            let base: u64 = match popped {
                Some(b) => b,
                None => 0,
            };
            let frame = PhysFrame::from_base(base);
            self.note(Ghost(draw_of(frame)));
            assert(self@ =~= v.allocated().1);
            return frame;
        }
        loop
            invariant
                self@.wf(),
                v.wf(),
                v == old(self)@,
                v.free_list.len() == 0,
                self@.trace == v.trace,
                self@.bumped() == v.bumped(),
            decreases self@.map.len() - self@.region,
        {
            let ghost w = self@;
            let end: u64 = match self.usable_bounds(self.region) {
                None => {
                    self.note(Ghost(FrameOp::Refused));
                    assert(self@ =~= v.allocated().1);
                    return None;
                },
                Some((_, end)) => end,
            };
            if self.cursor > u64::MAX - FRAME_SIZE {
                self.note(Ghost(FrameOp::Refused));
                assert(self@ =~= v.allocated().1);
                return None;
            }
            if self.cursor + FRAME_SIZE <= end {
                let base: u64 = self.cursor;
                proof {
                    law_drawn_frames_ascend(w);
                    assert((w.handed_out + 1) * FRAME_SIZE <= u64::MAX);
                    assert(w.handed_out < u64::MAX) by (nonlinear_arith)
                        requires
                            (w.handed_out + 1) * FRAME_SIZE <= u64::MAX,
                            FRAME_SIZE >= 1,
                            w.handed_out >= 0,
                    ;
                }
                let frame = PhysFrame::from_base(base);
                self.cursor = self.cursor + FRAME_SIZE;
                self.handed_out = self.handed_out + 1;
                self.note(Ghost(draw_of(frame)));
                assert(self@ =~= v.allocated().1);
                return frame;
            }
            let regions: usize = self.map.len();
            proof {
                lemma_moved_on(w);
                assert(w.region < regions);
            }
            self.advance_to_usable_region(self.region + 1);
            assert(self@ =~= w.moved_on());
            if self.region >= self.map.len() {
                self.note(Ghost(FrameOp::Refused));
                assert(self@ =~= v.allocated().1);
                return None;
            }
        }
    }

    /// Notes an operation in the ghost trace.
    fn note(&mut self, op: Ghost<FrameOp>)
        ensures
            final(self)@ == old(self)@.noted(op@),
    {
        let t: Ghost<Seq<FrameOp>> = Ghost(self.trace@.push(op@));
        self.trace = t;
        assert(self@ =~= old(self)@.noted(op@));
    }

    /// Frames handed out so far.
    pub fn handed_out(&self) -> (n: u64)
        ensures
            n == self@.handed_out,
    {
        self.handed_out
    }

    /// Frames currently available for reuse on the free list.
    pub fn free_list_depth(&self) -> (n: usize)
        ensures
            n == self@.free_list.len(),
    {
        self.free_list.len()
    }

    /// Distinct frames currently counted as shared.
    pub fn shared_frame_count(&self) -> (n: usize)
        ensures
            n == self@.shared.len(),
    {
        self.shared.len()
    }

    /// Reclaims that overflowed a bound (free list or shared table full). Zero
    /// in a healthy run.
    pub fn reclaim_overflows(&self) -> (n: u64)
        ensures
            n == self@.reclaim_overflows,
    {
        self.reclaim_overflows
    }

    /// What leaked since this was last asked, oldest first. A leak is reported
    /// and not only counted.
    pub fn take_overflows(&mut self) -> (out: Vec<ReclaimOverflow>)
        requires
            old(self).wf(),
        ensures
            final(self).wf(),
            out@ == old(self)@.leaks,
            final(self)@ == (BumpView { leaks: Seq::empty(), ..old(self)@ }),
    {
        let mut out: Vec<ReclaimOverflow> = Vec::new();
        out.append(&mut self.leaks);
        assert(out@ =~= old(self)@.leaks);
        assert(self@ =~= BumpView { leaks: Seq::empty(), ..old(self)@ });
        out
    }

    /// Counts and records a leak.
    fn overflow(&mut self, cause: u64, bound: u64, frame: u64)
        ensures
            final(self)@ == old(self)@.overflowed(ReclaimOverflow { cause, bound, frame }),
    {
        self.leaks.push(ReclaimOverflow { cause, bound, frame });
        self.reclaim_overflows = self.reclaim_overflows.saturating_add(1);
        assert(self@ =~= old(self)@.overflowed(ReclaimOverflow { cause, bound, frame }));
    }

    /// Frame-aligned bounds of region `index` if it is usable and well formed.
    fn usable_bounds(&self, index: usize) -> (r: Option<(u64, u64)>)
        ensures
            match r {
                Some((start, end)) => bounds(self@.map, index as int) == Some(
                    (start as int, end as int),
                ),
                None => bounds(self@.map, index as int) is None,
            },
    {
        if index >= self.map.len() {
            return None;
        }
        let region: MemoryRegion = self.map[index];
        if region.kind != MemoryKind::Usable {
            return None;
        }
        if region.base > u64::MAX - (FRAME_SIZE - 1) || region.len > u64::MAX - region.base {
            return None;
        }
        let start: u64 = (region.base + (FRAME_SIZE - 1)) / FRAME_SIZE * FRAME_SIZE;
        let end: u64 = (region.base + region.len) / FRAME_SIZE * FRAME_SIZE;
        if end <= start {
            return None;
        }
        Some((start, end))
    }

    fn advance_to_usable_region(&mut self, start: usize)
        requires
            start <= old(self)@.map.len(),
        ensures
            final(self)@ == old(self)@.at_region(start as int),
    {
        let ghost v = self@;
        self.region = start;
        while self.region < self.map.len() && self.usable_bounds(self.region).is_none()
            invariant
                self@ == (BumpView { region: self@.region, ..v }),
                start <= self@.region <= v.map.len(),
                next_region(v.map, self@.region) == next_region(v.map, start as int),
            decreases v.map.len() - self@.region,
        {
            let ghost w = self@;
            self.region += 1;
            assert(self@ =~= BumpView { region: self@.region, ..v });
        }
        if let Some((start, _)) = self.usable_bounds(self.region) {
            self.cursor = start;
        }
        assert(self@ =~= v.at_region(start as int));
    }
}

/// The last `count` of `frames` are one run of physical memory.
pub open spec fn ends_run(frames: Seq<PhysFrame>, count: int) -> bool {
    &&& frames.len() >= count
    &&& forall|i: int|
        frames.len() - count < i < frames.len() ==> (#[trigger] frames[i]).0 == frames[i - 1].0
            + FRAME_SIZE
}

/// No front part of `frames` ends in a run of `count`.
pub open spec fn runless(frames: Seq<PhysFrame>, count: int) -> bool {
    forall|m: int| 0 <= m <= frames.len() ==> !ends_run(#[trigger] frames.take(m), count)
}

/// One more frame on a list whose trailing run is `run` long and cannot be
/// longer: either it continues the run or it starts a new one.
proof fn lemma_run_step(frames: Seq<PhysFrame>, run: int, count: int, f: PhysFrame)
    requires
        1 <= run < count,
        ends_run(frames, run),
        !ends_run(frames, run + 1),
        runless(frames, count),
    ensures
        f.0 == frames.last().0 + FRAME_SIZE ==> ends_run(frames.push(f), run + 1) && !ends_run(
            frames.push(f),
            run + 2,
        ),
        f.0 != frames.last().0 + FRAME_SIZE ==> ends_run(frames.push(f), 1) && !ends_run(
            frames.push(f),
            2,
        ),
        f.0 == frames.last().0 + FRAME_SIZE && run + 1 < count ==> runless(frames.push(f), count),
        f.0 != frames.last().0 + FRAME_SIZE && 1 < count ==> runless(frames.push(f), count),
{
    let g = frames.push(f);
    let n = frames.len();
    if f.0 == frames.last().0 + FRAME_SIZE {
        if ends_run(g, run + 2) {
            assert forall|i: int| n - (run + 1) < i < n implies (#[trigger] frames[i]).0 == frames[i
                - 1].0 + FRAME_SIZE by {
                assert(g[i].0 == g[i - 1].0 + FRAME_SIZE);
            }
        }
        if run + 1 < count && ends_run(g, count) {
            assert(ends_run(g, run + 2));
        }
    } else {
        if ends_run(g, 2) {
            assert(g[n as int].0 == g[n - 1].0 + FRAME_SIZE);
        }
        if 1 < count && ends_run(g, count) {
            assert(g[n as int].0 == g[n - 1].0 + FRAME_SIZE);
        }
    }
    if (f.0 == frames.last().0 + FRAME_SIZE && run + 1 < count) || (f.0 != frames.last().0
        + FRAME_SIZE && 1 < count) {
        assert forall|m: int| 0 <= m <= g.len() implies !ends_run(#[trigger] g.take(m), count) by {
            if m <= n {
                assert(g.take(m) =~= frames.take(m));
            } else {
                assert(g.take(m) =~= g);
            }
        }
    }
}

impl<'a> BumpFrameAllocator<'a> {
    /// Hands out `count` physically contiguous frames, returning the address of
    /// the first: frames are drawn until the last `count` of them are a run.
    /// The ones drawn on the way are not given back. `None` for no frames at
    /// all, or once memory is exhausted before a long enough run is found.
    pub fn alloc_contiguous(&mut self, count: u64) -> (r: Option<u64>)
        requires
            old(self).wf(),
        ensures
            final(self).wf(),
            match r {
                Some(base) => {
                    &&& count > 0
                    &&& exists|n: nat|
                        {
                            let frames = (#[trigger] old(self)@.drawn(n)).0;
                            &&& frames.len() == n
                            &&& final(self)@ == old(self)@.drawn(n).1
                            &&& n >= count
                            &&& ends_run(frames, count as int)
                            &&& runless(frames.drop_last(), count as int)
                            &&& base == frames[n - count].0
                        }
                },
                None => if count == 0 {
                    final(self)@ == old(self)@
                } else {
                    exists|n: nat|
                        {
                            let frames = (#[trigger] old(self)@.drawn(n)).0;
                            let last = old(self)@.drawn(n).1;
                            &&& frames.len() == n
                            &&& runless(frames, count as int)
                            &&& last.allocated().0 is None
                            &&& final(self)@ == last.allocated().1
                        }
                },
            },
    {
        if count == 0 {
            return None;
        }
        let ghost v = self@;
        let ghost mut frames: Seq<PhysFrame> = Seq::empty();
        proof {
            lemma_allocated(v);
            assert(v.drawn(0) == (frames, v));
            assert(runless(frames, count as int));
        }
        let first = self.allocate();
        let mut run_start: PhysFrame = match first {
            None => {
                return None;
            },
            Some(f) => f,
        };
        let mut run_len: u64 = 1;
        let mut prev: PhysFrame = run_start;
        proof {
            frames = seq![run_start];
            assert(Seq::empty().push(run_start) =~= frames);
            assert(v.drawn(1) == (frames, self@));
            assert(!ends_run(frames, 2));
            assert(frames.drop_last() =~= Seq::<PhysFrame>::empty());
            if count > 1 {
                assert forall|m: int| 0 <= m <= 1 implies !ends_run(
                    #[trigger] frames.take(m),
                    count as int,
                ) by {}
            }
            assert(runless(frames.drop_last(), count as int));
        }
        while run_len < count
            invariant
                self.wf(),
                v == old(self)@,
                1 <= run_len <= count,
                v.drawn(frames.len()) == (frames, self@),
                frames.len() >= run_len,
                prev == frames.last(),
                run_start == frames[frames.len() - run_len],
                ends_run(frames, run_len as int),
                !ends_run(frames, run_len + 1),
                runless(frames.drop_last(), count as int),
                run_len < count ==> runless(frames, count as int),
            decreases self@.free_list.len() + u64::MAX - self@.cursor,
        {
            let ghost w = self@;
            let ghost was = frames;
            proof {
                lemma_allocated(w);
            }
            let next = self.allocate();
            let frame: PhysFrame = match next {
                None => {
                    return None;
                },
                Some(f) => f,
            };
            proof {
                lemma_run_step(was, run_len as int, count as int, frame);
                frames = was.push(frame);
                assert(frames.drop_last() =~= was);
            }
            if frame.base() >= FRAME_SIZE && frame.base() - FRAME_SIZE == prev.base() {
                run_len += 1;
            } else {
                run_start = frame;
                run_len = 1;
            }
            prev = frame;
        }
        Some(run_start.base())
    }

    /// Whether the frame at `base` is shared for good.
    fn is_pinned(&self, base: u64) -> (b: bool)
        ensures
            b == self@.pinned.contains(base),
    {
        let mut i: usize = 0;
        while i < self.pinned.len()
            invariant
                i <= self@.pinned.len(),
                forall|j: int| 0 <= j < i ==> #[trigger] self@.pinned[j] != base,
            decreases self@.pinned.len() - i,
        {
            if self.pinned[i] == base {
                assert(self@.pinned[i as int] == base);
                return true;
            }
            i += 1;
        }
        false
    }

    /// Adds one reference to the frame at `base` (copy-on-write sharing). When
    /// the table is full the extra reference cannot be counted: the frame is
    /// shared for good and never reclaimed, and the overflow is counted.
    pub fn retain(&mut self, base: u64)
        requires
            old(self).wf(),
            old(self)@.references(base) < u32::MAX,
        ensures
            final(self).wf(),
            final(self)@ == old(self)@.retained(base),
    {
        let ghost v = self@;
        if self.is_pinned(base) {
            self.overflow(RECLAIM_OVERFLOW_SHARED_TABLE_FULL, MAX_SHARED_FRAMES as u64, base);
            assert(self@ =~= v.retained(base));
            return;
        }
        let n: usize = self.shared.len();
        let mut i: usize = 0;
        while i < n
            invariant
                self@ == v,
                v == old(self)@,
                v.wf(),
                !v.pinned.contains(base),
                v.references(base) < u32::MAX,
                n == v.shared.len(),
                i <= n,
                forall|j: int| 0 <= j < i ==> !shares(base)(#[trigger] v.shared[j]),
            decreases n - i,
        {
            if self.shared[i].0 == base {
                proof {
                    slots::lemma_first_is(v.shared, shares(base), i as int);
                }
                let count: u32 = self.shared[i].1;
                self.shared[i] = (base, count + 1);
                assert(self@ =~= v.retained(base));
                return;
            }
            i += 1;
        }
        proof {
            slots::lemma_first_is(v.shared, shares(base), i as int);
        }
        if n < MAX_SHARED_FRAMES {
            self.shared.push((base, 2));
            proof {
                assert(self@ =~= v.retained(base));
                assert forall|a: int, b: int| 0 <= a < b < self@.shared.len() implies (
                #[trigger] self@.shared[a]).0 != (#[trigger] self@.shared[b]).0 by {
                    assert(!shares(base)(v.shared[a]));
                }
            }
        } else {
            self.overflow(RECLAIM_OVERFLOW_SHARED_TABLE_FULL, MAX_SHARED_FRAMES as u64, base);
            self.pinned.push(base);
            assert(self@ =~= v.retained(base));
        }
    }

    /// Releases one reference to the frame at `base`; reclaims it to the free
    /// list when the last reference drops. When the list is full the frame
    /// leaks, and the overflow is counted. A frame shared for good leaks.
    pub fn release(&mut self, base: u64)
        requires
            old(self).wf(),
        ensures
            final(self).wf(),
            final(self)@ == old(self)@.released(base),
    {
        let ghost v = self@;
        if self.is_pinned(base) {
            return;
        }
        let n: usize = self.shared.len();
        let mut i: usize = 0;
        while i < n
            invariant
                self@ == v,
                v == old(self)@,
                v.wf(),
                !v.pinned.contains(base),
                n == v.shared.len(),
                i <= n,
                forall|j: int| 0 <= j < i ==> !shares(base)(#[trigger] v.shared[j]),
            decreases n - i,
        {
            if self.shared[i].0 == base {
                proof {
                    slots::lemma_first_is(v.shared, shares(base), i as int);
                }
                let count: u32 = self.shared[i].1;
                if count == 2 {
                    // Back to a single implicit reference.
                    let _ = self.shared.swap_remove(i);
                } else {
                    self.shared[i] = (base, count - 1);
                }
                assert(self@ =~= v.released(base));
                return;
            }
            i += 1;
        }
        proof {
            slots::lemma_first_is(v.shared, shares(base), i as int);
        }
        if self.free_list.len() < MAX_FREE_FRAMES {
            self.free_list.push(base);
        } else {
            self.overflow(RECLAIM_OVERFLOW_FREE_LIST_FULL, MAX_FREE_FRAMES as u64, base);
        }
        assert(self@ =~= v.released(base));
    }

    /// Total usable frames in the map, independent of consumption.
    pub fn total_usable_frames(&self) -> (n: u64)
        requires
            self.wf(),
        ensures
            n == frames_in(self@.map, self@.map.len() as int),
    {
        let mut n: u64 = 0;
        let mut i: usize = 0;
        while i < self.map.len()
            invariant
                self.wf(),
                i <= self@.map.len(),
                n == frames_in(self@.map, i as int),
            decreases self@.map.len() - i,
        {
            proof {
                lemma_frames_fit(self@.map, i + 1);
            }
            if let Some((start, end)) = self.usable_bounds(i) {
                n = n + (end - start) / FRAME_SIZE;
            }
            i += 1;
        }
        n
    }
}

/// The frames of the first `n` regions lie below the end of the last of them,
/// so there are no more than fit in the address space.
proof fn lemma_frames_fit(map: Seq<MemoryRegion>, n: int)
    requires
        ordered(map),
        0 <= n <= map.len(),
    ensures
        0 <= frames_in(map, n),
        frames_in(map, n) * FRAME_SIZE <= top(map, n),
        0 <= top(map, n) <= u64::MAX,
        forall|j: int| n <= j < map.len() && (#[trigger] bounds(map, j)) is Some ==> top(map, n)
            <= low(bounds(map, j)),
    decreases n,
{
    if n > 0 {
        lemma_frames_fit(map, n - 1);
        if bounds(map, n - 1) is Some {
            let b = bounds(map, n - 1)->0;
            let r = map[n - 1];
            lemma_rounding(r.base as int);
            lemma_rounding(r.base + r.len);
            let k = (b.1 - b.0) / FRAME_SIZE as int;
            assert(frames_in(map, n) * FRAME_SIZE == frames_in(map, n - 1) * FRAME_SIZE + k
                * FRAME_SIZE) by (nonlinear_arith)
                requires
                    frames_in(map, n) == frames_in(map, n - 1) + k,
            ;
            assert(k * FRAME_SIZE <= b.1 - b.0);
        }
    }
}

/// Where the last usable one of the first `n` regions ends.
pub open spec fn top(map: Seq<MemoryRegion>, n: int) -> int
    decreases n,
{
    if n <= 0 {
        0
    } else {
        match bounds(map, n - 1) {
            Some(b) => b.1,
            None => top(map, n - 1),
        }
    }
}

/// Asking in two parts is asking all at once.
proof fn lemma_after(v: BumpView, first: Seq<FrameOp>, then: Seq<FrameOp>)
    ensures
        v.after(first + then) == v.after(first).after(then),
    decreases then.len(),
{
    if then.len() == 0 {
        assert(first + then =~= first);
    } else {
        assert((first + then).drop_last() =~= first + then.drop_last());
        lemma_after(v, first, then.drop_last());
    }
}

/// An allocator that took one operation was asked that one.
proof fn lemma_took<'a>(a: BumpFrameAllocator<'a>, b: BumpFrameAllocator<'a>, op: FrameOp)
    requires
        b@ == a@.took(op),
        b@.trace == a@.trace.push(op),
    ensures
        asked(a, b, seq![op]),
{
    let one = seq![op];
    assert(one.drop_last() =~= Seq::<FrameOp>::empty());
    assert(a@.after(one.drop_last()) == a@);
    assert(a@.after(one) == b@);
    assert(a@.trace + one =~= a@.trace.push(op));
    assert forall|more: Seq<FrameOp>| #[trigger] b.next(more) == a.next(one + more) by {
        lemma_after(a@, one, more);
    }
}

impl<'a> FrameLedger for BumpFrameAllocator<'a> {
    open spec fn inv(&self) -> bool {
        self.wf()
    }

    open spec fn trace(&self) -> Seq<FrameOp> {
        self@.trace
    }

    open spec fn next(&self, ops: Seq<FrameOp>) -> Option<PhysFrame> {
        self@.after(ops).allocated().0
    }

    open spec fn can_retain(&self, frame: PhysFrame) -> bool {
        self@.references(frame.0) < u32::MAX
    }
}

impl<'a> FrameSource for BumpFrameAllocator<'a> {
    fn alloc_frame(&mut self) -> (r: Option<PhysFrame>)
        ensures
            r == old(self)@.allocated().0,
            final(self)@ == old(self)@.allocated().1,
    {
        proof {
            lemma_allocated(self@);
        }
        let r = self.allocate();
        proof {
            lemma_took(*old(self), *self, draw_of(r));
        }
        r
    }

    fn retain_frame(&mut self, frame: PhysFrame)
        ensures
            final(self)@ == old(self)@.retained(frame.0).noted(FrameOp::Retained(frame)),
    {
        self.retain(frame.base());
        self.note(Ghost(FrameOp::Retained(frame)));
        proof {
            lemma_took(*old(self), *self, FrameOp::Retained(frame));
        }
    }

    /// What the map still holds, plus what has come back.
    fn frames_available(&self) -> (r: Option<u64>)
        ensures
            ({
                let total = frames_in(self@.map, self@.map.len() as int);
                let untouched = if total > self@.handed_out {
                    total - self@.handed_out
                } else {
                    0
                };
                r is Some && r->0 == untouched + self@.free_list.len()
            }),
    {
        proof {
            lemma_frames_fit(self@.map, self@.map.len() as int);
            let total = frames_in(self@.map, self@.map.len() as int);
            assert(total <= u64::MAX / 0x1000) by (nonlinear_arith)
                requires
                    total * 0x1000 <= u64::MAX,
                    FRAME_SIZE == 0x1000,
            ;
        }
        let untouched: u64 = self.total_usable_frames().saturating_sub(self.handed_out);
        Some(untouched + self.free_list.len() as u64)
    }

    fn free_frame(&mut self, frame: PhysFrame)
        ensures
            final(self)@ == old(self)@.released(frame.0).noted(FrameOp::Freed(frame)),
    {
        self.release(frame.base());
        self.note(Ghost(FrameOp::Freed(frame)));
        proof {
            lemma_took(*old(self), *self, FrameOp::Freed(frame));
        }
    }
}

/// A frame that was retained needs one release more before it is free again:
/// taking a reference and giving it back leaves every count as it was.
pub proof fn law_retain_then_release_cancels(v: BumpView, base: u64)
    requires
        v.wf(),
        v.references(base) < u32::MAX,
        !v.pinned.contains(base),
        v.share(base) < v.shared.len() || v.shared.len() < MAX_SHARED_FRAMES,
    ensures
        v.retained(base).references(base) == v.references(base) + 1,
        v.retained(base).released(base).free_list == v.free_list,
        v.retained(base).released(base) == v,
{
    slots::lemma_first(v.shared, shares(base));
    let w = v.retained(base);
    slots::lemma_first_is(w.shared, shares(base), v.share(base));
    assert(w.released(base) =~= v);
}

/// A frame freed by its only holder is the next one handed out.
pub proof fn law_freed_frame_is_reused(v: BumpView, frame: PhysFrame)
    requires
        v.wf(),
        v.references(frame.0) == 1,
        !v.pinned.contains(frame.0),
        v.free_list.len() < MAX_FREE_FRAMES,
        frame.0 % FRAME_SIZE == 0,
    ensures
        v.released(frame.0).allocated().0 == Some(frame),
        v.released(frame.0).allocated().1.handed_out == v.handed_out,
{
    slots::lemma_first(v.shared, shares(frame.0));
}

/// A step of the allocator's life.
pub enum FrameStep {
    Draw,
    Retain(u64),
    Release(u64),
}

impl BumpView {
    /// After one step.
    pub open spec fn stepped(self, step: FrameStep) -> BumpView {
        match step {
            FrameStep::Draw => self.allocated().1,
            FrameStep::Retain(base) => self.retained(base),
            FrameStep::Release(base) => self.released(base),
        }
    }

    /// After `steps`, in order.
    pub open spec fn run(self, steps: Seq<FrameStep>) -> BumpView
        decreases steps.len(),
    {
        if steps.len() == 0 {
            self
        } else {
            self.run(steps.drop_last()).stepped(steps.last())
        }
    }

    /// Whether the frame at `base`, which was drawn, has a reference that could
    /// not be counted and is not waiting to be reused.
    pub open spec fn leaked(self, base: u64) -> bool {
        &&& self.pinned.contains(base)
        &&& !self.free_list.contains(base)
        &&& base < self.cursor
    }
}

/// One step keeps the invariant and what has leaked.
proof fn lemma_stepped(v: BumpView, step: FrameStep, base: u64)
    requires
        v.wf(),
        step matches FrameStep::Retain(b) ==> v.references(b) < u32::MAX,
        v.leaked(base),
    ensures
        v.stepped(step).wf(),
        v.stepped(step).leaked(base),
{
    match step {
        FrameStep::Draw => {
            lemma_allocated(v);
            law_drawn_frames_ascend(v);
            let w = v.allocated().1;
            if w.free_list.contains(base) {
                let k = choose|k: int| 0 <= k < w.free_list.len() && w.free_list[k] == base;
                assert(v.free_list[k] == base);
            }
        },
        FrameStep::Retain(b) => {
            let w = v.retained(b);
            slots::lemma_first(v.shared, shares(b));
            assert forall|x: int, y: int| 0 <= x < y < w.shared.len() implies (
            #[trigger] w.shared[x]).0 != (#[trigger] w.shared[y]).0 by {
                if y < v.shared.len() {
                    assert(v.shared[x].0 != v.shared[y].0);
                } else {
                    assert(!shares(b)(v.shared[x]));
                }
            }
            let k = choose|k: int| 0 <= k < v.pinned.len() && v.pinned[k] == base;
            assert(w.pinned[k] == base);
        },
        FrameStep::Release(b) => {
            let w = v.released(b);
            let n = v.shared.len() as int;
            slots::lemma_first(v.shared, shares(b));
            assert forall|x: int, y: int| 0 <= x < y < w.shared.len() implies (
            #[trigger] w.shared[x]).0 != (#[trigger] w.shared[y]).0 by {
                assert(v.shared[x].0 != v.shared[y].0);
                assert(v.shared[y].0 != v.shared[n - 1].0 || y == n - 1);
                assert(v.shared[x].0 != v.shared[n - 1].0 || x == n - 1);
            }
            if w.free_list.contains(base) {
                let k = choose|k: int| 0 <= k < w.free_list.len() && w.free_list[k] == base;
                if k < v.free_list.len() {
                    assert(v.free_list[k] == base);
                }
            }
        },
    }
}

/// A frame whose extra reference could not be counted leaks from then on.
pub proof fn law_an_uncounted_reference_pins_the_frame(v: BumpView, base: u64)
    requires
        v.wf(),
        v.shared.len() == MAX_SHARED_FRAMES,
        v.share(base) == v.shared.len(),
        !v.free_list.contains(base),
        base < v.cursor,
    ensures
        v.retained(base).leaked(base),
        !v.pinned.contains(base) && v.reclaim_overflows < u64::MAX ==> v.retained(
            base,
        ).reclaim_overflows == v.reclaim_overflows + 1,
{
    let w = v.retained(base);
    if !v.pinned.contains(base) {
        assert(w.pinned[v.pinned.len() as int] == base);
    }
}

/// A frame with a reference that could not be counted never comes back: it
/// never enters the free list, and no allocation hands it out again, whatever
/// is drawn, retained or released in between.
pub proof fn law_a_leaked_frame_is_never_handed_out(
    v: BumpView,
    steps: Seq<FrameStep>,
    base: u64,
)
    requires
        v.wf(),
        v.leaked(base),
        forall|i: int|
            0 <= i < steps.len() ==> (#[trigger] steps[i] matches FrameStep::Retain(b)
                ==> v.run(steps.take(i)).references(b) < u32::MAX),
    ensures
        v.run(steps).wf(),
        !v.run(steps).free_list.contains(base),
        v.run(steps).allocated().0 != Some(PhysFrame(base)),
        v.run(steps).leaked(base),
    decreases steps.len(),
{
    if steps.len() > 0 {
        let shorter = steps.drop_last();
        assert forall|i: int|
            0 <= i < shorter.len() implies (#[trigger] shorter[i] matches FrameStep::Retain(b)
                ==> v.run(shorter.take(i)).references(b) < u32::MAX) by {
            assert(shorter[i] == steps[i]);
            assert(shorter.take(i) =~= steps.take(i));
        }
        law_a_leaked_frame_is_never_handed_out(v, shorter, base);
        assert(steps.take(steps.len() - 1) =~= shorter);
        assert(steps[steps.len() - 1] == steps.last());
        lemma_stepped(v.run(shorter), steps.last(), base);
    }
    let w = v.run(steps);
    law_drawn_frames_ascend(w);
    if w.free_list.len() > 0 {
        assert(w.free_list.contains(w.free_list.last()));
    }
}

/// A frame source over a fixed set of frames handed to it in advance: for a
/// CPU that needs to allocate and does not own an allocator. Hands frames out
/// in the order they were put in and never reclaims.
pub struct FramePool<const N: usize> {
    frames: Vec<u64>,
    /// Frames handed out.
    next: usize,
    trace: Ghost<Seq<FrameOp>>,
}

/// What a [`FramePool`] holds.
#[verifier::ext_equal]
pub struct PoolView {
    pub frames: Seq<u64>,
    pub next: int,
    pub trace: Seq<FrameOp>,
}

/// The frames put in between `before` and `after`, in order.
pub open spec fn pooled(before: PoolView, after: PoolView) -> Seq<PhysFrame> {
    after.frames.skip(before.frames.len() as int).map_values(|base: u64| PhysFrame(base))
}

impl<const N: usize> View for FramePool<N> {
    type V = PoolView;

    closed spec fn view(&self) -> PoolView {
        PoolView { frames: self.frames@, next: self.next as int, trace: self.trace@ }
    }
}

impl<const N: usize> FramePool<N> {
    /// The pool's invariant: what it holds fits and is frames, and it has
    /// handed out no more than that.
    pub open spec fn wf(&self) -> bool {
        &&& self@.frames.len() <= N
        &&& 0 <= self@.next <= self@.frames.len()
        &&& forall|i: int|
            0 <= i < self@.frames.len() ==> (#[trigger] self@.frames[i]) % FRAME_SIZE == 0
    }

    pub fn new() -> (p: FramePool<N>)
        ensures
            p.wf(),
            p@ == (PoolView { frames: Seq::empty(), next: 0, trace: Seq::empty() }),
    {
        FramePool { frames: Vec::new(), next: 0, trace: Ghost(Seq::empty()) }
    }

    /// Draws up to `count` frames from `source` into the pool, returning how
    /// many it got. Fewer than asked for is reported rather than treated as
    /// failure.
    pub fn fill<F: FrameSource>(&mut self, source: &mut F, count: usize) -> (n: usize)
        requires
            old(self).wf(),
            old(source).inv(),
        ensures
            final(self).wf(),
            final(source).inv(),
            n <= count,
            final(self)@.frames.len() == old(self)@.frames.len() + n,
            final(self)@.frames.take(old(self)@.frames.len() as int) == old(self)@.frames,
            final(self)@.next == old(self)@.next,
            final(self)@.trace == old(self)@.trace,
            ({
                let frames = pooled(old(self)@, final(self)@);
                &&& hands_out(*old(source), frames)
                &&& if n < count && final(self)@.frames.len() < N {
                    &&& dry_after(*old(source), frames)
                    &&& asked(
                        *old(source),
                        *final(source),
                        draws(frames) + seq![FrameOp::Refused],
                    )
                } else {
                    asked(*old(source), *final(source), draws(frames))
                }
            }),
    {
        let mut filled: usize = 0;
        let ghost v = self@;
        proof {
            assert(pooled(v, v) =~= Seq::<PhysFrame>::empty());
            assert(draws(pooled(v, v)) =~= Seq::<FrameOp>::empty());
            lemma_asked_nothing(*source);
            assert(v.frames.take(v.frames.len() as int) =~= v.frames);
        }
        while self.frames.len() < N && filled < count
            invariant
                self.wf(),
                source.inv(),
                v == old(self)@,
                filled <= count,
                self@.frames.len() == v.frames.len() + filled,
                self@.frames.take(v.frames.len() as int) == v.frames,
                self@.next == v.next,
                self@.trace == v.trace,
                hands_out(*old(source), pooled(v, self@)),
                asked(*old(source), *source, draws(pooled(v, self@))),
            decreases count - filled,
        {
            let ghost w = self@;
            let ghost s = *source;
            let r = source.alloc_frame();
            proof {
                lemma_hands_out(*old(source), s, *source, pooled(v, w), r);
            }
            match r {
                None => {
                    return filled;
                },
                Some(frame) => {
                    self.frames.push(frame.base());
                    filled += 1;
                    proof {
                        assert(self@.frames =~= w.frames.push(frame.0));
                        assert(self@.frames.take(v.frames.len() as int) =~= w.frames.take(
                            v.frames.len() as int,
                        ));
                        assert(pooled(v, self@) =~= pooled(v, w).push(frame));
                    }
                },
            }
        }
        filled
    }

    /// Frames still to hand out.
    pub fn remaining(&self) -> (n: usize)
        requires
            self.wf(),
        ensures
            n == self@.frames.len() - self@.next,
    {
        self.frames.len() - self.next
    }
}

impl<const N: usize> Default for FramePool<N> {
    fn default() -> (p: FramePool<N>)
        ensures
            p.wf(),
            p@ == (PoolView { frames: Seq::empty(), next: 0, trace: Seq::empty() }),
    {
        FramePool::new()
    }
}

impl PoolView {
    /// The frame a draw hands out, and the pool after it.
    pub open spec fn handed(self) -> (Option<PhysFrame>, PoolView) {
        if self.next < self.frames.len() {
            let f = PhysFrame(self.frames[self.next]);
            (Some(f), PoolView { next: self.next + 1, ..self.noted(FrameOp::Drew(f)) })
        } else {
            (None, self.noted(FrameOp::Refused))
        }
    }

    /// With `op` noted in the trace.
    pub open spec fn noted(self, op: FrameOp) -> PoolView {
        PoolView { trace: self.trace.push(op), ..self }
    }

    /// After `op` is asked of the pool. What is given back does not return to it.
    pub open spec fn took(self, op: FrameOp) -> PoolView {
        match op {
            FrameOp::Drew(_) => self.handed().1,
            FrameOp::Refused => self.handed().1,
            FrameOp::Retained(_) => self.noted(op),
            FrameOp::Freed(_) => self.noted(op),
        }
    }

    /// After `ops` are asked of it, in order.
    pub open spec fn after(self, ops: Seq<FrameOp>) -> PoolView
        decreases ops.len(),
    {
        if ops.len() == 0 {
            self
        } else {
            self.after(ops.drop_last()).took(ops.last())
        }
    }
}

/// Asking a pool in two parts is asking it all at once.
proof fn lemma_pool_after(v: PoolView, first: Seq<FrameOp>, then: Seq<FrameOp>)
    ensures
        v.after(first + then) == v.after(first).after(then),
    decreases then.len(),
{
    if then.len() == 0 {
        assert(first + then =~= first);
    } else {
        assert((first + then).drop_last() =~= first + then.drop_last());
        lemma_pool_after(v, first, then.drop_last());
    }
}

impl<const N: usize> FramePool<N> {
    /// Notes an operation in the ghost trace.
    fn note(&mut self, op: Ghost<FrameOp>)
        ensures
            final(self)@ == old(self)@.noted(op@),
    {
        let t: Ghost<Seq<FrameOp>> = Ghost(self.trace@.push(op@));
        self.trace = t;
        assert(self@ =~= old(self)@.noted(op@));
    }

    /// A pool that took one operation was asked that one.
    proof fn lemma_took(a: FramePool<N>, b: FramePool<N>, op: FrameOp)
        requires
            b@ == a@.took(op),
            b@.trace == a@.trace.push(op),
        ensures
            asked(a, b, seq![op]),
    {
        let one = seq![op];
        assert(one.drop_last() =~= Seq::<FrameOp>::empty());
        assert(a@.after(one.drop_last()) == a@);
        assert(a@.after(one) == b@);
        assert(a@.trace + one =~= a@.trace.push(op));
        assert forall|more: Seq<FrameOp>| #[trigger] b.next(more) == a.next(one + more) by {
            lemma_pool_after(a@, one, more);
        }
    }
}

impl<const N: usize> FrameLedger for FramePool<N> {
    open spec fn inv(&self) -> bool {
        self.wf()
    }

    open spec fn trace(&self) -> Seq<FrameOp> {
        self@.trace
    }

    open spec fn next(&self, ops: Seq<FrameOp>) -> Option<PhysFrame> {
        self@.after(ops).handed().0
    }

    open spec fn can_retain(&self, frame: PhysFrame) -> bool {
        true
    }
}

impl<const N: usize> FrameSource for FramePool<N> {
    fn alloc_frame(&mut self) -> (r: Option<PhysFrame>)
        ensures
            r == old(self)@.handed().0,
            final(self)@ == old(self)@.handed().1,
    {
        let ghost v = self@;
        let mut r: Option<PhysFrame> = None;
        if self.next < self.frames.len() {
            let base: u64 = self.frames[self.next];
            assert(v.frames[v.next] % FRAME_SIZE == 0);
            self.next += 1;
            r = PhysFrame::from_base(base);
        }
        self.note(Ghost(draw_of(r)));
        proof {
            assert(self@ =~= v.handed().1);
            Self::lemma_took(*old(self), *self, draw_of(r));
        }
        r
    }

    fn retain_frame(&mut self, frame: PhysFrame)
        ensures
            final(self)@ == old(self)@.noted(FrameOp::Retained(frame)),
    {
        self.note(Ghost(FrameOp::Retained(frame)));
        proof {
            Self::lemma_took(*old(self), *self, FrameOp::Retained(frame));
        }
    }

    fn frames_available(&self) -> (r: Option<u64>)
        ensures
            r is None,
    {
        None
    }

    /// A pool is exhausted, not recycled.
    fn free_frame(&mut self, frame: PhysFrame)
        ensures
            final(self)@ == old(self)@.noted(FrameOp::Freed(frame)),
    {
        self.note(Ghost(FrameOp::Freed(frame)));
        proof {
            Self::lemma_took(*old(self), *self, FrameOp::Freed(frame));
        }
    }
}

/// A frame drawn from the map lies wholly inside a usable region of it and is
/// aligned; and a frame that is drawn again was given back before.
pub proof fn law_frames_come_from_usable_memory(v: BumpView)
    requires
        v.wf(),
    ensures
        v.allocated().0 matches Some(f) ==> {
            &&& f.0 % FRAME_SIZE == 0
            &&& v.free_list.len() == 0 ==> exists|i: int|
                {
                    &&& 0 <= i < v.map.len()
                    &&& (#[trigger] v.map[i]).kind == MemoryKind::Usable
                    &&& v.map[i].base <= f.0
                    &&& f.0 + FRAME_SIZE <= v.map[i].base + v.map[i].len
                }
            &&& v.free_list.len() > 0 ==> f.0 == v.free_list.last()
        },
        v.free_list.len() > 0 ==> {
            &&& v.allocated().1.free_list == v.free_list.drop_last()
            &&& v.allocated().1.cursor == v.cursor
            &&& v.allocated().1.region == v.region
            &&& v.allocated().1.handed_out == v.handed_out
        },
        v.free_list.len() == 0 ==> v.allocated().1.handed_out == v.handed_out + (
        if v.allocated().0 is Some {
            1int
        } else {
            0
        }),
        v.allocated().1.map == v.map,
        v.allocated().1.shared == v.shared,
        v.allocated().1.pinned == v.pinned,
        v.allocated().1.leaks == v.leaks,
        v.allocated().1.reclaim_overflows == v.reclaim_overflows,
{
    law_drawn_frames_ascend(v);
    if v.free_list.len() == 0 {
        if let Some(f) = v.bumped().0 {
            let i = choose|i: int|
                (#[trigger] bounds(v.map, i)) matches Some(b) && b.0 <= f.0 && f.0 + FRAME_SIZE
                    <= b.1;
            let r = v.map[i];
            lemma_rounding(r.base as int);
            lemma_rounding(r.base + r.len);
            assert(v.map[i].kind == MemoryKind::Usable);
        }
    }
}

/// An aligned frame that a usable region holds whole lies between the bounds of
/// that region.
proof fn lemma_in_bounds(map: Seq<MemoryRegion>, i: int, g: int)
    requires
        0 <= i < map.len(),
        map[i].kind == MemoryKind::Usable,
        map[i].base <= g,
        g + FRAME_SIZE <= map[i].base + map[i].len,
        map[i].base + map[i].len <= u64::MAX,
        g % FRAME_SIZE as int == 0,
    ensures
        bounds(map, i) matches Some(b) && b.0 <= g && g + FRAME_SIZE <= b.1,
{
    let r = map[i];
    lemma_rounding(r.base as int);
    lemma_rounding(r.base + r.len);
}

/// Nothing is between a region and the next one that has frames.
proof fn lemma_next_region_skips(map: Seq<MemoryRegion>, i: int, j: int)
    requires
        0 <= i <= j < next_region(map, i),
        i <= map.len(),
    ensures
        j < map.len(),
        bounds(map, j) is None,
    decreases map.len() - i,
{
    lemma_next_region(map, i);
    if i < j {
        lemma_next_region_skips(map, i + 1, j);
    }
}

/// No usable frame is passed over: between where drawing stands and the frame it
/// draws there is none that a usable region holds whole, and when nothing more
/// is drawn there is none left.
pub proof fn law_no_usable_frame_is_passed_over(v: BumpView, i: int, g: int)
    requires
        v.wf(),
        v.free_list.len() == 0,
        v.region <= i < v.map.len(),
        v.map[i].kind == MemoryKind::Usable,
        v.map[i].base <= g,
        g + FRAME_SIZE <= v.map[i].base + v.map[i].len,
        v.map[i].base + v.map[i].len <= u64::MAX,
        g % FRAME_SIZE as int == 0,
        g >= v.cursor,
    ensures
        v.allocated().0 matches Some(f) && f.0 <= g,
    decreases v.map.len() - v.region,
{
    lemma_in_bounds(v.map, i, g);
    let b = bounds(v.map, v.region)->0;
    if v.cursor + FRAME_SIZE > b.1 {
        lemma_moved_on(v);
        lemma_next_region(v.map, v.region + 1);
        let m = v.moved_on();
        if i < m.region {
            if i > v.region {
                lemma_next_region_skips(v.map, v.region + 1, i);
            }
        }
        assert(i >= m.region);
        if i > m.region {
            assert(high(bounds(v.map, m.region)) <= low(bounds(v.map, i)));
        }
        law_no_usable_frame_is_passed_over(m, i, g);
    }
}

/// The frames counted for a region are those it holds whole, and none unless it
/// is usable: from `start`, its first aligned address, there is one of them at
/// every aligned address `g` up to as many as are counted.
pub proof fn law_usable_frames_are_counted(map: Seq<MemoryRegion>, i: int, start: int, g: int)
    requires
        0 <= i < map.len(),
        map[i].base + map[i].len <= u64::MAX,
        map[i].base <= start < map[i].base + FRAME_SIZE,
        start % FRAME_SIZE as int == 0,
        g % FRAME_SIZE as int == 0,
    ensures
        ({
            let n = frames_in(map, i + 1) - frames_in(map, i);
            &&& n >= 0
            &&& map[i].kind != MemoryKind::Usable ==> n == 0
            &&& map[i].kind == MemoryKind::Usable ==> ((map[i].base <= g && g + FRAME_SIZE
                <= map[i].base + map[i].len) <==> start <= g < start + n * FRAME_SIZE)
        }),
{
    let r = map[i];
    lemma_rounding(r.base as int);
    lemma_rounding(r.base + r.len);
    assert(start == round_up(r.base as int));
    if map[i].kind == MemoryKind::Usable {
        if map[i].base <= g && g + FRAME_SIZE <= map[i].base + map[i].len {
            lemma_in_bounds(map, i, g);
        }
    }
}

/// How often a frame is referenced is what the table of shared frames says, and
/// once when it says nothing.
pub proof fn law_references_are_what_the_table_says(v: BumpView, base: u64)
    requires
        v.wf(),
    ensures
        forall|k: int|
            0 <= k < v.shared.len() && (#[trigger] v.shared[k]).0 == base ==> v.references(base)
                == v.shared[k].1,
        (forall|k: int| 0 <= k < v.shared.len() ==> (#[trigger] v.shared[k]).0 != base)
            ==> v.references(base) == 1,
{
    slots::lemma_first(v.shared, shares(base));
    let f = v.share(base);
    assert forall|k: int|
        0 <= k < v.shared.len() && (#[trigger] v.shared[k]).0 == base implies v.references(base)
        == v.shared[k].1 by {
        assert(shares(base)(v.shared[k]));
        if f < k {
            assert(v.shared[f].0 != v.shared[k].0);
        }
        if k < f {
            assert(!shares(base)(v.shared[k]));
        }
    }
}

/// Giving a frame back drops one reference. Only the last reference frees it, a
/// frame that nobody can count is not freed at all, and no other frame is
/// affected. With no room for it, it leaks on record.
pub proof fn law_only_the_last_release_frees(v: BumpView, base: u64, other: u64)
    requires
        v.wf(),
        other != base,
    ensures
        ({
            let w = v.released(base);
            &&& v.pinned.contains(base) ==> w == v
            &&& !v.pinned.contains(base) && v.references(base) > 1 ==> {
                &&& w.free_list == v.free_list
                &&& w.references(base) == v.references(base) - 1
                &&& w.leaks == v.leaks && w.reclaim_overflows == v.reclaim_overflows
            }
            &&& !v.pinned.contains(base) && v.references(base) == 1 && v.free_list.len()
                < MAX_FREE_FRAMES ==> {
                &&& w.free_list == v.free_list.push(base)
                &&& w.shared == v.shared
                &&& w.leaks == v.leaks && w.reclaim_overflows == v.reclaim_overflows
            }
            &&& !v.pinned.contains(base) && v.references(base) == 1 && v.free_list.len()
                >= MAX_FREE_FRAMES ==> {
                &&& w.free_list == v.free_list
                &&& w.shared == v.shared
                &&& w.leaks.len() == v.leaks.len() + 1
                &&& w.leaks.drop_last() == v.leaks
                &&& w.leaks.last().frame == base
                &&& w.leaks.last().cause == RECLAIM_OVERFLOW_FREE_LIST_FULL
                &&& w.leaks.last().bound == MAX_FREE_FRAMES
                &&& v.reclaim_overflows < u64::MAX ==> w.reclaim_overflows
                    == v.reclaim_overflows + 1
            }
            &&& w.references(other) == v.references(other)
            &&& w.free_list.contains(other) == v.free_list.contains(other)
            &&& w.map == v.map && w.cursor == v.cursor && w.region == v.region
            &&& w.handed_out == v.handed_out && w.pinned == v.pinned
        }),
{
    let w = v.released(base);
    slots::lemma_first(v.shared, shares(base));
    slots::lemma_first(v.shared, shares(other));
    slots::lemma_first(w.shared, shares(other));
    slots::lemma_first(w.shared, shares(base));
    let i = v.share(base);
    let j = v.share(other);
    let n = v.shared.len() as int;
    if !v.pinned.contains(base) {
        if i < n {
            assert forall|k: int| 0 <= k < n && k != i implies (#[trigger] v.shared[k]).0 != base by {
                if k < i {
                    assert(!shares(base)(v.shared[k]));
                } else {
                    assert(v.shared[i].0 != v.shared[k].0);
                }
            }
            assert forall|k: int| 0 <= k < n && k != j implies (#[trigger] v.shared[k]).0
                != other by {
                if k < j {
                    assert(!shares(other)(v.shared[k]));
                } else {
                    assert(v.shared[j].0 != v.shared[k].0);
                }
            }
            if v.shared[i].1 == 2 {
                if j < n {
                    let at = if j == n - 1 {
                        i
                    } else {
                        j
                    };
                    assert(w.shared[at] == v.shared[j]);
                    assert forall|k: int| 0 <= k < at implies !shares(other)(
                        #[trigger] w.shared[k],
                    ) by {
                        assert(w.shared[k] == v.shared[if k == i {
                            n - 1
                        } else {
                            k
                        }]);
                    }
                    slots::lemma_first_is(w.shared, shares(other), at);
                } else {
                    assert forall|k: int| 0 <= k < w.shared.len() implies !shares(other)(
                        #[trigger] w.shared[k],
                    ) by {
                        assert(w.shared[k] == v.shared[if k == i {
                            n - 1
                        } else {
                            k
                        }]);
                    }
                    slots::lemma_first_is(w.shared, shares(other), w.shared.len() as int);
                }
                assert forall|k: int| 0 <= k < w.shared.len() implies !shares(base)(
                    #[trigger] w.shared[k],
                ) by {
                    assert(w.shared[k] == v.shared[if k == i {
                        n - 1
                    } else {
                        k
                    }]);
                }
                slots::lemma_first_is(w.shared, shares(base), w.shared.len() as int);
            } else {
                assert forall|k: int| 0 <= k < n implies shares(other)(#[trigger] w.shared[k])
                    == shares(other)(v.shared[k]) by {}
                assert forall|k: int| 0 <= k < j implies !shares(other)(#[trigger] w.shared[k]) by {
                    assert(!shares(other)(v.shared[k]));
                }
                slots::lemma_first_is(w.shared, shares(other), j);
                assert forall|k: int| 0 <= k < i implies !shares(base)(#[trigger] w.shared[k]) by {
                    assert(!shares(base)(v.shared[k]));
                }
                slots::lemma_first_is(w.shared, shares(base), i);
            }
        } else if v.free_list.len() < MAX_FREE_FRAMES {
            assert(w.free_list.drop_last() =~= v.free_list);
            if v.free_list.contains(other) {
                let k = choose|k: int| 0 <= k < v.free_list.len() && v.free_list[k] == other;
                assert(w.free_list[k] == other);
            }
            if w.free_list.contains(other) {
                let k = choose|k: int| 0 <= k < w.free_list.len() && w.free_list[k] == other;
                assert(v.free_list[k] == other);
            }
        } else {
            assert(w.leaks.drop_last() =~= v.leaks);
        }
    }
}

/// A reference that is taken is counted, or the frame is pinned for good, on
/// record; and no frame is freed or drawn by it.
pub proof fn law_a_reference_is_counted_or_pinned(v: BumpView, base: u64, other: u64)
    requires
        v.wf(),
        v.references(base) < u32::MAX,
        other != base,
    ensures
        ({
            let w = v.retained(base);
            &&& w.free_list == v.free_list && w.map == v.map && w.cursor == v.cursor
            &&& w.region == v.region && w.handed_out == v.handed_out
            &&& w.references(other) == v.references(other)
            &&& w.pinned.contains(other) == v.pinned.contains(other)
            &&& {
                ||| w.references(base) == v.references(base) + 1 && !w.pinned.contains(base)
                    && w.leaks == v.leaks
                ||| w.pinned.contains(base) && w.shared == v.shared && w.leaks.len()
                    == v.leaks.len() + 1 && w.leaks.last().frame == base && w.leaks.last().cause
                    == RECLAIM_OVERFLOW_SHARED_TABLE_FULL && w.leaks.last().bound
                    == MAX_SHARED_FRAMES && (v.pinned.contains(base) || v.shared.len()
                    == MAX_SHARED_FRAMES)
            }
        }),
{
    let w = v.retained(base);
    slots::lemma_first(v.shared, shares(base));
    slots::lemma_first(v.shared, shares(other));
    let i = v.share(base);
    let j = v.share(other);
    let n = v.shared.len() as int;
    assert forall|k: int| 0 <= k < j && k < w.shared.len() implies !shares(other)(
        #[trigger] w.shared[k],
    ) by {
        if k < n {
            assert(!shares(other)(v.shared[k]));
        }
    }
    if j < n {
        slots::lemma_first_is(w.shared, shares(other), j);
    } else {
        slots::lemma_first_is(w.shared, shares(other), w.shared.len() as int);
    }
    assert forall|k: int| 0 <= k < i && k < w.shared.len() implies !shares(base)(
        #[trigger] w.shared[k],
    ) by {
        assert(!shares(base)(v.shared[k]));
    }
    if !v.pinned.contains(base) && (i < n || n < MAX_SHARED_FRAMES) {
        slots::lemma_first_is(w.shared, shares(base), i);
    } else if !v.pinned.contains(base) {
        assert(w.pinned.last() == base);
        if v.pinned.contains(other) {
            let k = choose|k: int| 0 <= k < v.pinned.len() && v.pinned[k] == other;
            assert(w.pinned[k] == other);
        }
        if w.pinned.contains(other) {
            let k = choose|k: int| 0 <= k < w.pinned.len() && w.pinned[k] == other;
            assert(v.pinned[k] == other);
        }
    }
}

/// A pool hands out what it was filled with, in that order and each frame once.
pub proof fn law_a_pool_hands_out_in_order(v: PoolView)
    requires
        0 <= v.next <= v.frames.len(),
    ensures
        v.handed().1.frames == v.frames,
        v.next < v.frames.len() ==> {
            &&& v.handed().0 matches Some(f) && f.0 == v.frames[v.next]
            &&& v.handed().1.next == v.next + 1
        },
        v.next == v.frames.len() ==> v.handed().0 is None && v.handed().1.next == v.next,
        v.took(FrameOp::Freed(PhysFrame(0))).next == v.next,
{
}

} // verus!
