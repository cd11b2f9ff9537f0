//! Address spaces as the kernel core uses them. Page tables belong to the
//! architecture; what the core asks of one is a short list of operations, and
//! an address space remembers what it was asked.
use vstd::prelude::*;
use crate::error::KError;
use crate::frame::{charged, lemma_charged_nothing, FrameOp, FrameSource};

verus! {

/// How pages may be used.
#[derive(Clone, Copy, PartialEq, Eq, Debug, Structural)]
pub struct PageFlags {
    pub read: bool,
    pub write: bool,
    pub execute: bool,
    pub user: bool,
}

impl PageFlags {
    /// Writable and executable at once.
    pub open spec fn wx(self) -> bool {
        self.write && self.execute
    }

    /// Whether pages would be writable and executable at once.
    pub fn is_wx(&self) -> (b: bool)
        ensures
            b == self.wx(),
    {
        self.write && self.execute
    }
}

/// Readable and writable user pages.
pub open spec fn user_rw() -> PageFlags {
    PageFlags { read: true, write: true, execute: false, user: true }
}

/// What a result says went wrong, if anything.
pub open spec fn failure<T>(r: Result<T, KError>) -> Option<KError> {
    match r {
        Ok(_) => None,
        Err(e) => Some(e),
    }
}

/// Something an address space was asked to do, and whether it did.
#[derive(Clone, Copy, PartialEq, Eq, Debug, Structural)]
pub enum SpaceOp {
    /// Map fresh zero-filled pages.
    MapFresh { va: u64, len: u64, flags: PageFlags, failed: Option<KError> },
    /// Copy bytes of the active address space in.
    CopyIn { va: u64, src: u64, len: u64, failed: Option<KError> },
    /// Change how a range may be used.
    Protect { va: u64, len: u64, flags: PageFlags, failed: Option<KError> },
    /// Unmap a device's registers.
    UnmapDevice { va: u64, pages: u64 },
    /// Unmap a range and drop the references its frames hold.
    Reclaim { va: u64, len: u64, ok: bool },
    /// Unmap everything.
    Teardown,
}

/// An address space.
pub trait Space: Sized {
    /// Everything asked so far.
    spec fn trace(&self) -> Seq<SpaceOp>;

    /// Everything asked of frame sources on its behalf so far.
    spec fn frames(&self) -> Seq<FrameOp>;

    /// What each unmapping of device registers came to, oldest first.
    spec fn unmapped(&self) -> Seq<Option<KError>>;

    /// What each reclaiming of a range came to, oldest first.
    spec fn reclaimed(&self) -> Seq<Option<KError>>;

    /// Maps `len` bytes of fresh pages at `va`.
    fn map_anonymous<F: FrameSource>(
        &mut self,
        va: u64,
        len: u64,
        flags: PageFlags,
        alloc: &mut F,
    ) -> (r: Result<(), KError>)
        requires
            old(alloc).inv(),
        ensures
            final(alloc).inv(),
            charged(old(self).frames(), final(self).frames(), *old(alloc), *final(alloc)),
            final(self).trace() == old(self).trace().push(
                SpaceOp::MapFresh { va, len, flags, failed: failure(r) },
            ),
    ;

    /// Copies `len` bytes at `src` of the active address space to `va` of this
    /// one.
    fn copy_in(&mut self, va: u64, src: u64, len: u64) -> (r: Result<(), KError>)
        ensures
            final(self).trace() == old(self).trace().push(
                SpaceOp::CopyIn { va, src, len, failed: failure(r) },
            ),
            final(self).frames() == old(self).frames(),
    ;

    /// Changes how `len` bytes at `va` may be used.
    fn protect_range(&mut self, va: u64, len: u64, flags: PageFlags) -> (r: Result<(), KError>)
        ensures
            final(self).trace() == old(self).trace().push(
                SpaceOp::Protect { va, len, flags, failed: failure(r) },
            ),
            final(self).frames() == old(self).frames(),
    ;

    /// Unmaps `pages` pages of device registers at `va`.
    fn unmap_device_pages(&mut self, va: u64, pages: u64) -> (r: Result<(), KError>)
        ensures
            final(self).trace() == old(self).trace().push(SpaceOp::UnmapDevice { va, pages }),
            final(self).unmapped() == old(self).unmapped().push(failure(r)),
            final(self).frames() == old(self).frames(),
    ;

    /// Unmaps exactly the range mapped at `va` and drops its references.
    fn reclaim_range<F: FrameSource>(&mut self, va: u64, len: u64, alloc: &mut F) -> (r: Result<
        (),
        KError,
    >)
        requires
            old(alloc).inv(),
        ensures
            final(alloc).inv(),
            charged(old(self).frames(), final(self).frames(), *old(alloc), *final(alloc)),
            final(self).trace() == old(self).trace().push(
                SpaceOp::Reclaim { va, len, ok: r is Ok },
            ),
            final(self).reclaimed() == old(self).reclaimed().push(failure(r)),
    ;

    /// Unmaps everything and drops every reference.
    fn teardown<F: FrameSource>(&mut self, alloc: &mut F)
        requires
            old(alloc).inv(),
        ensures
            final(alloc).inv(),
            charged(old(self).frames(), final(self).frames(), *old(alloc), *final(alloc)),
            final(self).trace() == old(self).trace().push(SpaceOp::Teardown),
    ;
}

/// An address space whose edits are queued for the processor that owns its
/// page tables to apply. It accepts every request.
pub struct QueuedSpace {
    queue: Vec<SpaceOp>,
    unmapped: Ghost<Seq<Option<KError>>>,
    reclaimed: Ghost<Seq<Option<KError>>>,
}

impl QueuedSpace {
    pub fn new() -> (s: QueuedSpace)
        ensures
            s.trace() == Seq::<SpaceOp>::empty(),
            s.frames() == Seq::<FrameOp>::empty(),
            s.unmapped() == Seq::<Option<KError>>::empty(),
            s.reclaimed() == Seq::<Option<KError>>::empty(),
    {
        QueuedSpace {
            queue: Vec::new(),
            unmapped: Ghost(Seq::empty()),
            reclaimed: Ghost(Seq::empty()),
        }
    }

    /// The edits not applied yet, oldest first.
    pub fn pending(&self) -> (ops: &[SpaceOp])
        ensures
            ops@ == self.trace(),
    {
        self.queue.as_slice()
    }
}

impl Space for QueuedSpace {
    closed spec fn trace(&self) -> Seq<SpaceOp> {
        self.queue@
    }

    /// A queued edit asks when it is applied.
    open spec fn frames(&self) -> Seq<FrameOp> {
        Seq::empty()
    }

    closed spec fn unmapped(&self) -> Seq<Option<KError>> {
        self.unmapped@
    }

    closed spec fn reclaimed(&self) -> Seq<Option<KError>> {
        self.reclaimed@
    }

    fn map_anonymous<F: FrameSource>(
        &mut self,
        va: u64,
        len: u64,
        flags: PageFlags,
        _alloc: &mut F,
    ) -> (r: Result<(), KError>)
        ensures
            r is Ok,
    {
        proof {
            lemma_charged_nothing(Seq::empty(), *_alloc);
        }
        self.queue.push(SpaceOp::MapFresh { va, len, flags, failed: None });
        Ok(())
    }

    fn copy_in(&mut self, va: u64, src: u64, len: u64) -> (r: Result<(), KError>) {
        self.queue.push(SpaceOp::CopyIn { va, src, len, failed: None });
        Ok(())
    }

    fn protect_range(&mut self, va: u64, len: u64, flags: PageFlags) -> (r: Result<(), KError>) {
        self.queue.push(SpaceOp::Protect { va, len, flags, failed: None });
        Ok(())
    }

    fn unmap_device_pages(&mut self, va: u64, pages: u64) -> (r: Result<(), KError>) {
        self.queue.push(SpaceOp::UnmapDevice { va, pages });
        let outcomes: Ghost<Seq<Option<KError>>> = Ghost(self.unmapped@.push(None));
        self.unmapped = outcomes;
        Ok(())
    }

    fn reclaim_range<F: FrameSource>(&mut self, va: u64, len: u64, _alloc: &mut F) -> (r: Result<
        (),
        KError,
    >) {
        proof {
            lemma_charged_nothing(Seq::empty(), *_alloc);
        }
        self.queue.push(SpaceOp::Reclaim { va, len, ok: true });
        let outcomes: Ghost<Seq<Option<KError>>> = Ghost(self.reclaimed@.push(None));
        self.reclaimed = outcomes;
        Ok(())
    }

    fn teardown<F: FrameSource>(&mut self, _alloc: &mut F) {
        proof {
            lemma_charged_nothing(Seq::empty(), *_alloc);
        }
        self.queue.push(SpaceOp::Teardown);
    }
}

/// User pages are readable and writable and never executable; writable and
/// executable at once is both; and a result fails exactly when it is an error.
pub proof fn law_what_the_flags_say(f: PageFlags, r: Result<u64, KError>)
    ensures
        user_rw().read && user_rw().write && user_rw().user && !user_rw().execute,
        f.wx() <==> f.write && f.execute,
        r is Ok ==> failure(r) is None,
        r matches Err(e) ==> failure(r) == Some(e),
{
}

} // verus!
