//! Physical frames and where they come from.
use vstd::prelude::*;
use crate::config::FRAME_SIZE;
use crate::slots;

verus! {

/// One physical frame, by the address of its first byte.
#[derive(Clone, Copy, PartialEq, Eq, Hash, Debug, Structural)]
pub struct PhysFrame(pub u64);

impl PhysFrame {
    /// The frame that starts at `base`, if a frame can start there.
    pub fn from_base(base: u64) -> (r: Option<PhysFrame>)
        ensures
            r == (if base % FRAME_SIZE == 0 {
                Some(PhysFrame(base))
            } else {
                None
            }),
    {
        if base % FRAME_SIZE == 0 {
            Some(PhysFrame(base))
        } else {
            None
        }
    }

    /// The address of the frame's first byte.
    pub fn base(self) -> (a: u64)
        ensures
            a == self.0,
    {
        self.0
    }
}

/// Something a frame source was asked to do.
pub enum FrameOp {
    /// The frame was handed out.
    Drew(PhysFrame),
    /// A draw found no frame.
    Refused,
    /// One more reference to the frame was taken.
    Retained(PhysFrame),
    /// One reference to the frame was given back.
    Freed(PhysFrame),
}

/// The operations that draw `frames`, in order.
pub open spec fn draws(frames: Seq<PhysFrame>) -> Seq<FrameOp> {
    frames.map_values(|f: PhysFrame| FrameOp::Drew(f))
}

/// The operations that give `frames` back, in order.
pub open spec fn frees(frames: Seq<PhysFrame>) -> Seq<FrameOp> {
    frames.map_values(|f: PhysFrame| FrameOp::Freed(f))
}

/// What is known of a source of frames. Whatever it does to choose its frames, it
/// remembers in `trace` what it was asked and what it handed out, and what it
/// will hand out depends on nothing else.
pub trait FrameLedger: Sized {
    /// The source's invariant.
    spec fn inv(&self) -> bool;

    /// Everything drawn, refused, retained and freed so far.
    spec fn trace(&self) -> Seq<FrameOp>;

    /// What a draw hands out once `ops` have been asked, or `None` when there is
    /// no frame left then.
    spec fn next(&self, ops: Seq<FrameOp>) -> Option<PhysFrame>;

    /// Whether one more reference to `frame` can be counted.
    spec fn can_retain(&self, frame: PhysFrame) -> bool;
}

/// What a draw that came to `r` is remembered as.
pub open spec fn draw_of(r: Option<PhysFrame>) -> FrameOp {
    match r {
        Some(f) => FrameOp::Drew(f),
        None => FrameOp::Refused,
    }
}

/// `after` is `before` once `ops` were asked of it, and nothing else: it
/// remembers them, and what it hands out from now on is what `before` would
/// hand out after them.
pub open spec fn asked<F: FrameLedger>(before: F, after: F, ops: Seq<FrameOp>) -> bool {
    &&& after.trace() == before.trace() + ops
    &&& forall|more: Seq<FrameOp>| #[trigger] after.next(more) == before.next(ops + more)
}

/// What was asked one after the other was asked all together.
pub proof fn lemma_asked<F: FrameLedger>(
    a: F,
    b: F,
    c: F,
    first: Seq<FrameOp>,
    then: Seq<FrameOp>,
)
    requires
        asked(a, b, first),
        asked(b, c, then),
    ensures
        asked(a, c, first + then),
{
    assert(c.trace() =~= a.trace() + (first + then));
    assert forall|more: Seq<FrameOp>| #[trigger] c.next(more) == a.next(first + then + more) by {
        assert(first + (then + more) =~= first + then + more);
    }
}

/// A source that was asked nothing is as it was.
pub proof fn lemma_asked_nothing<F: FrameLedger>(a: F)
    ensures
        asked(a, a, Seq::empty()),
{
    assert(a.trace() + Seq::empty() =~= a.trace());
    assert forall|more: Seq<FrameOp>| #[trigger] a.next(more) == a.next(
        Seq::<FrameOp>::empty() + more,
    ) by {
        assert(Seq::<FrameOp>::empty() + more =~= more);
    }
}

/// What an account that grew from `before` to `after` gained.
pub open spec fn gained(before: Seq<FrameOp>, after: Seq<FrameOp>) -> Seq<FrameOp> {
    after.skip(before.len() as int)
}

/// An account that kept everything asked on its behalf grew from `before` to
/// `after` by exactly what was asked of a source meanwhile, which took it from
/// `a` to `b`.
pub open spec fn charged<F: FrameLedger>(
    before: Seq<FrameOp>,
    after: Seq<FrameOp>,
    a: F,
    b: F,
) -> bool {
    before.is_prefix_of(after) && asked(a, b, gained(before, after))
}

/// What was charged one after the other was charged all together.
pub proof fn lemma_charged<F: FrameLedger>(
    x: Seq<FrameOp>,
    y: Seq<FrameOp>,
    z: Seq<FrameOp>,
    a: F,
    b: F,
    c: F,
)
    requires
        charged(x, y, a, b),
        charged(y, z, b, c),
    ensures
        charged(x, z, a, c),
{
    lemma_asked(a, b, c, gained(x, y), gained(y, z));
    assert(gained(x, z) =~= gained(x, y) + gained(y, z));
}

/// Nothing asked is nothing charged.
pub proof fn lemma_charged_nothing<F: FrameLedger>(x: Seq<FrameOp>, a: F)
    ensures
        charged(x, x, a, a),
{
    lemma_asked_nothing(a);
    assert(gained(x, x) =~= Seq::<FrameOp>::empty());
}

/// Whether `frames` are what `source` hands out next, in order.
pub open spec fn hands_out<F: FrameLedger>(source: F, frames: Seq<PhysFrame>) -> bool {
    forall|i: int|
        0 <= i < frames.len() ==> source.next(draws(#[trigger] frames.take(i))) == Some(frames[i])
}

/// Whether `source` has nothing left once `frames` are drawn.
pub open spec fn dry_after<F: FrameLedger>(source: F, frames: Seq<PhysFrame>) -> bool {
    source.next(draws(frames)) is None
}

/// One more draw from a source that has handed out `frames` hands out what it
/// has next, or finds it dry.
pub proof fn lemma_hands_out<F: FrameLedger>(
    start: F,
    source: F,
    after: F,
    frames: Seq<PhysFrame>,
    r: Option<PhysFrame>,
)
    requires
        hands_out(start, frames),
        asked(start, source, draws(frames)),
        r == source.next(Seq::empty()),
        asked(source, after, seq![draw_of(r)]),
    ensures
        r matches Some(f) ==> hands_out(start, frames.push(f)) && asked(
            start,
            after,
            draws(frames.push(f)),
        ),
        r is None ==> dry_after(start, frames) && asked(
            start,
            after,
            draws(frames) + seq![FrameOp::Refused],
        ),
{
    assert(draws(frames) + Seq::empty() =~= draws(frames));
    lemma_asked(start, source, after, draws(frames), seq![draw_of(r)]);
    if let Some(f) = r {
        let more = frames.push(f);
        assert(draws(more) =~= draws(frames) + seq![FrameOp::Drew(f)]);
        assert forall|i: int| 0 <= i < more.len() implies start.next(
            draws(#[trigger] more.take(i)),
        ) == Some(more[i]) by {
            if i < frames.len() {
                assert(more.take(i) =~= frames.take(i));
            } else {
                assert(more.take(i) =~= frames);
            }
        }
    }
}

/// Where frames are drawn from and given back to.
pub trait FrameSource: FrameLedger {
    /// Hands out a frame, or `None` when there is none left.
    fn alloc_frame(&mut self) -> (r: Option<PhysFrame>)
        requires
            old(self).inv(),
        ensures
            final(self).inv(),
            asked(*old(self), *final(self), seq![draw_of(r)]),
            r matches Some(f) ==> f.0 % FRAME_SIZE == 0,
            r == old(self).next(Seq::empty()),
    ;

    /// Takes one more reference to `frame`.
    fn retain_frame(&mut self, frame: PhysFrame)
        requires
            old(self).inv(),
            old(self).can_retain(frame),
        ensures
            final(self).inv(),
            asked(*old(self), *final(self), seq![FrameOp::Retained(frame)]),
    ;

    /// How many frames could still be handed out, where the source knows.
    fn frames_available(&self) -> (r: Option<u64>)
        requires
            self.inv(),
    ;

    /// Gives back one reference to `frame`.
    fn free_frame(&mut self, frame: PhysFrame)
        requires
            old(self).inv(),
        ensures
            final(self).inv(),
            asked(*old(self), *final(self), seq![FrameOp::Freed(frame)]),
    ;
}

/// What frames hold, as far as clearing them goes. It remembers in `zeroed`
/// which frames it cleared.
pub trait FrameMemory {
    /// The memory's invariant.
    spec fn inv(&self) -> bool;

    /// The frames cleared so far, in order.
    spec fn zeroed(&self) -> Seq<PhysFrame>;

    /// Whether `frame` was cleared and, as far as the memory knows, not written
    /// since: every byte of it is zero where the memory keeps the bytes itself,
    /// and where it has them cleared, that was asked.
    spec fn blank(&self, frame: PhysFrame) -> bool;

    /// Clears every byte of `frame`, and no other frame's.
    fn zero_frame(&mut self, frame: PhysFrame)
        requires
            old(self).inv(),
        ensures
            final(self).inv(),
            final(self).zeroed() == old(self).zeroed().push(frame),
            final(self).blank(frame),
            forall|f: PhysFrame| old(self).blank(f) ==> #[trigger] final(self).blank(f),
    ;
}

/// Frames whose contents are kept in this program's own memory, each from when
/// it is first touched.
pub struct FrameStore {
    pages: Vec<(u64, Vec<u8>)>,
    zeroed: Ghost<Seq<PhysFrame>>,
}

/// What a [`FrameStore`] holds.
#[verifier::ext_equal]
pub struct StoreContents {
    /// The frames touched, by address, and their bytes.
    pub pages: Seq<(u64, Seq<u8>)>,
    pub zeroed: Seq<PhysFrame>,
}

impl StoreContents {
    /// Every page is whole, and no frame has two.
    pub open spec fn wf(self) -> bool {
        &&& forall|i: int|
            0 <= i < self.pages.len() ==> (#[trigger] self.pages[i]).1.len() == FRAME_SIZE
        &&& forall|i: int, j: int|
            0 <= i < j < self.pages.len() ==> (#[trigger] self.pages[i]).0 != (
            #[trigger] self.pages[j]).0
    }

    /// The byte at `offset` of the frame at `base`, if the frame was touched.
    pub open spec fn byte(self, base: u64, offset: int) -> Option<u8> {
        let at = slots::first(self.pages, at_base(base));
        if at < self.pages.len() && 0 <= offset < FRAME_SIZE {
            Some(self.pages[at].1[offset])
        } else {
            None
        }
    }
}

/// The predicate of the page of the frame at `base`.
pub open spec fn at_base(base: u64) -> spec_fn((u64, Seq<u8>)) -> bool {
    |p: (u64, Seq<u8>)| p.0 == base
}

impl View for FrameStore {
    type V = StoreContents;

    closed spec fn view(&self) -> StoreContents {
        StoreContents {
            pages: Seq::new(
                self.pages@.len(),
                |i: int| (self.pages@[i].0, self.pages@[i].1@),
            ),
            zeroed: self.zeroed@,
        }
    }
}

impl FrameStore {
    /// Frames nobody has touched.
    pub fn new() -> (s: FrameStore)
        ensures
            s@.wf(),
            s@.pages.len() == 0,
            s@.zeroed == Seq::<PhysFrame>::empty(),
    {
        FrameStore { pages: Vec::new(), zeroed: Ghost(Seq::empty()) }
    }

    fn find(&self, base: u64) -> (r: Option<usize>)
        ensures
            match r {
                Some(i) => i < self@.pages.len() && i == slots::first(self@.pages, at_base(base))
                    && self@.pages[i as int].0 == base,
                None => slots::first(self@.pages, at_base(base)) == self@.pages.len(),
            },
    {
        let mut i: usize = 0;
        while i < self.pages.len()
            invariant
                i <= self@.pages.len(),
                self@.pages.len() == self.pages@.len(),
                forall|j: int| 0 <= j < i ==> !at_base(base)(#[trigger] self@.pages[j]),
            decreases self@.pages.len() - i,
        {
            assert(self@.pages[i as int].0 == self.pages@[i as int].0);
            if self.pages[i].0 == base {
                proof {
                    slots::lemma_first_is(self@.pages, at_base(base), i as int);
                }
                return Some(i);
            }
            i += 1;
        }
        proof {
            slots::lemma_first_is(self@.pages, at_base(base), i as int);
        }
        None
    }

    /// The byte at `offset` of `frame`, or `None` if the frame was never
    /// touched or has no such byte.
    pub fn read(&self, frame: PhysFrame, offset: usize) -> (r: Option<u8>)
        requires
            self@.wf(),
        ensures
            r == self@.byte(frame.0, offset as int),
    {
        match self.find(frame.0) {
            None => None,
            Some(i) => {
                assert(self@.pages[i as int].1 == self.pages@[i as int].1@);
                if offset < self.pages[i].1.len() {
                    Some(self.pages[i].1[offset])
                } else {
                    None
                }
            },
        }
    }

    /// Fills every byte of `frame` with `value`.
    pub fn fill(&mut self, frame: PhysFrame, value: u8)
        requires
            old(self)@.wf(),
        ensures
            final(self)@.wf(),
            final(self)@.zeroed == old(self)@.zeroed,
            forall|k: int| 0 <= k < FRAME_SIZE ==> #[trigger] final(self)@.byte(frame.0, k) == Some(
                value,
            ),
            forall|base: u64, k: int|
                base != frame.0 ==> #[trigger] final(self)@.byte(base, k) == old(self)@.byte(
                    base,
                    k,
                ),
    {
        let ghost v = self@;
        let page: Vec<u8> = vec![value; FRAME_SIZE as usize];
        match self.find(frame.0) {
            Some(i) => {
                self.pages[i] = (frame.0, page);
                proof {
                    assert(self@.pages =~= v.pages.update(i as int, (frame.0, page@)));
                    assert forall|base: u64| base != frame.0 implies slots::first(
                        self@.pages,
                        #[trigger] at_base(base),
                    ) == slots::first(v.pages, at_base(base)) by {
                        slots::lemma_first(v.pages, at_base(base));
                        slots::lemma_first_is(
                            self@.pages,
                            at_base(base),
                            slots::first(v.pages, at_base(base)),
                        );
                    }
                    slots::lemma_first_is(self@.pages, at_base(frame.0), i as int);
                    assert forall|base: u64, k: int| base != frame.0 implies #[trigger] self@.byte(
                        base,
                        k,
                    ) == v.byte(base, k) by {
                        slots::lemma_first(v.pages, at_base(base));
                        assert(slots::first(self@.pages, at_base(base)) == slots::first(
                            v.pages,
                            at_base(base),
                        ));
                    }
                }
            },
            None => {
                self.pages.push((frame.0, page));
                proof {
                    assert(self@.pages =~= v.pages.push((frame.0, page@)));
                    slots::lemma_first(v.pages, at_base(frame.0));
                    assert forall|a: int, b: int| 0 <= a < b < self@.pages.len() implies (
                    #[trigger] self@.pages[a]).0 != (#[trigger] self@.pages[b]).0 by {
                        assert(!at_base(frame.0)(v.pages[a]));
                    }
                    slots::lemma_first_is(
                        self@.pages,
                        at_base(frame.0),
                        v.pages.len() as int,
                    );
                    assert forall|base: u64, k: int| base != frame.0 implies #[trigger] self@.byte(
                        base,
                        k,
                    ) == v.byte(base, k) by {
                        let f = slots::first(v.pages, at_base(base));
                        slots::lemma_first(v.pages, at_base(base));
                        if f < v.pages.len() {
                            slots::lemma_first_is(self@.pages, at_base(base), f);
                        } else {
                            slots::lemma_first_is(
                                self@.pages,
                                at_base(base),
                                self@.pages.len() as int,
                            );
                        }
                    }
                }
            },
        }
    }
}

impl FrameMemory for FrameStore {
    open spec fn inv(&self) -> bool {
        self@.wf()
    }

    open spec fn zeroed(&self) -> Seq<PhysFrame> {
        self@.zeroed
    }

    open spec fn blank(&self, frame: PhysFrame) -> bool {
        forall|k: int| 0 <= k < FRAME_SIZE ==> #[trigger] self@.byte(frame.0, k) == Some(0u8)
    }

    fn zero_frame(&mut self, frame: PhysFrame)
        ensures
            forall|base: u64, k: int|
                base != frame.0 ==> #[trigger] final(self)@.byte(base, k) == old(self)@.byte(
                    base,
                    k,
                ),
    {
        let ghost v = self@;
        self.fill(frame, 0);
        let ghost w = self@;
        let z: Ghost<Seq<PhysFrame>> = Ghost(self.zeroed@.push(frame));
        self.zeroed = z;
        assert(self@ =~= StoreContents { zeroed: v.zeroed.push(frame), ..w });
        assert forall|base: u64, k: int| #[trigger] self@.byte(base, k) == w.byte(base, k) by {}
        assert forall|f: PhysFrame| old(self).blank(f) implies #[trigger] self.blank(f) by {
            assert forall|k: int| 0 <= k < FRAME_SIZE implies #[trigger] self@.byte(f.0, k) == Some(
                0u8,
            ) by {
                assert(v.byte(f.0, k) == Some(0u8));
            }
        }
    }
}

/// Frames of the machine itself, which a port clears: a frame counts as blank
/// from when `clear` was called on its address.
pub struct PortFrames<C: Fn(u64)> {
    clear: C,
    zeroed: Ghost<Seq<PhysFrame>>,
}

impl<C: Fn(u64)> PortFrames<C> {
    /// Frames that `clear` clears.
    pub fn new(clear: C) -> (f: PortFrames<C>)
        requires
            forall|base: u64| call_requires(clear, (base,)),
        ensures
            f.inv(),
            f.zeroed() == Seq::<PhysFrame>::empty(),
    {
        PortFrames { clear, zeroed: Ghost(Seq::empty()) }
    }
}

impl<C: Fn(u64)> FrameMemory for PortFrames<C> {
    closed spec fn inv(&self) -> bool {
        forall|base: u64| call_requires(self.clear, (base,))
    }

    closed spec fn zeroed(&self) -> Seq<PhysFrame> {
        self.zeroed@
    }

    closed spec fn blank(&self, frame: PhysFrame) -> bool {
        self.zeroed@.contains(frame)
    }

    fn zero_frame(&mut self, frame: PhysFrame) {
        (self.clear)(frame.0);
        let z: Ghost<Seq<PhysFrame>> = Ghost(self.zeroed@.push(frame));
        self.zeroed = z;
        proof {
            let before = old(self).zeroed@;
            assert(self.zeroed@[before.len() as int] == frame);
            assert forall|f: PhysFrame| old(self).blank(f) implies #[trigger] self.blank(f) by {
                let k = choose|k: int| 0 <= k < before.len() && before[k] == f;
                assert(self.zeroed@[k] == f);
            }
        }
    }
}

/// Drawing or freeing a list of frames is remembered frame by frame, in order.
pub proof fn law_draws_and_frees_name_their_frames(frames: Seq<PhysFrame>, i: int)
    requires
        0 <= i < frames.len(),
    ensures
        draws(frames).len() == frames.len(),
        frees(frames).len() == frames.len(),
        draws(frames)[i] == FrameOp::Drew(frames[i]),
        frees(frames)[i] == FrameOp::Freed(frames[i]),
{
}

/// What a source was asked is on its record, after what was asked before, and
/// decides what it hands out from then on.
pub proof fn law_what_is_asked_is_on_record<F: FrameLedger>(
    before: F,
    after: F,
    ops: Seq<FrameOp>,
    i: int,
)
    requires
        asked(before, after, ops),
        0 <= i < after.trace().len(),
    ensures
        after.trace().len() == before.trace().len() + ops.len(),
        i < before.trace().len() ==> after.trace()[i] == before.trace()[i],
        i >= before.trace().len() ==> after.trace()[i] == ops[i - before.trace().len()],
        after.next(Seq::empty()) == before.next(ops),
{
    assert(ops + Seq::<FrameOp>::empty() =~= ops);
    assert(after.next(Seq::empty()) == before.next(ops + Seq::empty()));
}

/// What goes to an account is what its holder asked of the source: the account
/// grows by exactly what is added to the source's record.
pub proof fn law_an_account_is_what_was_asked<F: FrameLedger>(
    before: Seq<FrameOp>,
    after: Seq<FrameOp>,
    a: F,
    b: F,
    i: int,
)
    requires
        charged(before, after, a, b),
        0 <= i < after.len(),
    ensures
        after.len() >= before.len(),
        b.trace().len() == a.trace().len() + (after.len() - before.len()),
        i < before.len() ==> after[i] == before[i],
        i >= before.len() ==> b.trace()[a.trace().len() + (i - before.len())] == after[i],
{
    if i >= before.len() {
        assert(gained(before, after)[i - before.len()] == after[i]);
    }
}

/// Frames that a source hands out are the ones it would hand out next, one after
/// the other, and it is dry when there is no next.
pub proof fn law_frames_are_handed_out_in_turn<F: FrameLedger>(
    source: F,
    frames: Seq<PhysFrame>,
    i: int,
)
    requires
        hands_out(source, frames),
        0 <= i < frames.len(),
    ensures
        source.next(draws(frames.take(i))) == Some(frames[i]),
        dry_after(source, frames) <==> source.next(draws(frames)) is None,
        draw_of(Some(frames[i])) == FrameOp::Drew(frames[i]),
        draw_of(None) == FrameOp::Refused,
{
}

/// A byte of a stored frame is the byte that was written at that place of it, and
/// there is none where no such frame is stored or beyond its end.
pub proof fn law_a_stored_byte_is_where_it_was_put(s: StoreContents, k: int, offset: int, base: u64)
    requires
        s.wf(),
        0 <= k < s.pages.len(),
    ensures
        0 <= offset < FRAME_SIZE ==> s.byte(s.pages[k].0, offset) == Some(s.pages[k].1[offset]),
        offset < 0 || offset >= FRAME_SIZE ==> s.byte(base, offset) is None,
        (forall|j: int| 0 <= j < s.pages.len() ==> (#[trigger] s.pages[j]).0 != base) ==> s.byte(
            base,
            offset,
        ) is None,
{
    let p = at_base(s.pages[k].0);
    slots::lemma_first(s.pages, p);
    let at = slots::first(s.pages, p);
    assert(p(s.pages[k]));
    if at < k {
        assert(s.pages[at].0 != s.pages[k].0);
    }
    slots::lemma_first(s.pages, at_base(base));
}

} // verus!
