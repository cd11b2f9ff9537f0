//! The kernel's half of system power: a counter that moves on every wake event
//! and the wake holds that veto a suspend commit. Deciding when to try again
//! belongs to the power manager.
use vstd::prelude::*;
use crate::object::ObjectId;
use crate::slots;

verus! {

/// Wake holds the kernel tracks at once.
pub const MAX_WAKE_HOLDS: usize = 8;

/// How long the grace hold a wake event takes for itself lasts, in scheduler
/// ticks: the width of the window between the kernel knowing and the service
/// knowing.
pub const WAKE_GRACE_TICKS: u64 = 4;

/// Why a wake hold could not be taken.
#[derive(Clone, Copy, PartialEq, Eq, Debug, Structural)]
pub enum WakeError {
    /// The table is full.
    NoSpace,
}

/// One wake hold.
#[derive(Clone, Copy, PartialEq, Eq, Debug, Structural)]
pub struct Hold {
    /// Who is holding it.
    pub holder: ObjectId,
    /// The tick at which it stops counting, or `None` for a hold that lasts
    /// until it is released.
    pub expires_at: Option<u64>,
}

/// The system wake-event counter and the live wake holds.
pub struct WakeState {
    events: u64,
    holds: Vec<Option<Hold>>,
}

/// What a [`WakeState`] holds.
#[verifier::ext_equal]
pub struct WakeView {
    pub events: u64,
    pub holds: Seq<Option<Hold>>,
}

/// The predicate of a hold still counting at `now`.
pub open spec fn live(now: u64) -> spec_fn(Option<Hold>) -> bool {
    |o: Option<Hold>|
        o matches Some(h) && match h.expires_at {
            Some(at) => at > now,
            None => true,
        }
}

/// The predicate of a hold whose deadline has passed at `now`.
pub open spec fn lapsed(now: u64) -> spec_fn(Option<Hold>) -> bool {
    |o: Option<Hold>| o matches Some(h) && (h.expires_at matches Some(at) && at <= now)
}

/// The predicate of a hold that belongs to `holder`.
pub open spec fn owned(holder: ObjectId) -> spec_fn(Option<Hold>) -> bool {
    |o: Option<Hold>| o matches Some(h) && h.holder == holder
}

/// `holds` with every slot that satisfies `p` emptied.
pub open spec fn swept(holds: Seq<Option<Hold>>, p: spec_fn(Option<Hold>) -> bool) -> Seq<
    Option<Hold>,
> {
    Seq::new(
        holds.len(),
        |i: int|
            if p(holds[i]) {
                None
            } else {
                holds[i]
            },
    )
}

impl WakeView {
    /// No event seen, nothing held.
    pub open spec fn fresh() -> WakeView {
        WakeView { events: 0, holds: slots::empty(MAX_WAKE_HOLDS as nat) }
    }

    pub open spec fn wf(self) -> bool {
        self.holds.len() == MAX_WAKE_HOLDS
    }

    /// The first free slot, or the capacity.
    pub open spec fn vacancy(self) -> int {
        slots::first(self.holds, slots::free::<Hold>())
    }

    /// With a hold taken, if there is room.
    pub open spec fn acquired(self, holder: ObjectId, expires_at: Option<u64>) -> WakeView {
        if self.vacancy() < self.holds.len() {
            WakeView {
                holds: self.holds.update(self.vacancy(), Some(Hold { holder, expires_at })),
                ..self
            }
        } else {
            self
        }
    }

    /// With the event counter moved on by one.
    pub open spec fn counted(self) -> WakeView {
        WakeView {
            events: if self.events == u64::MAX {
                0
            } else {
                (self.events + 1) as u64
            },
            ..self
        }
    }

    /// After `source` woke the machine at `now`: counted, and a grace hold
    /// taken if there is room.
    pub open spec fn woken(self, source: ObjectId, now: u64) -> WakeView {
        self.counted().acquired(source, Some((now + WAKE_GRACE_TICKS) as u64))
    }

    /// With the first of `holder`'s holds released.
    pub open spec fn released(self, holder: ObjectId) -> WakeView {
        let at = slots::first(self.holds, owned(holder));
        if at < self.holds.len() {
            WakeView { holds: self.holds.update(at, None), ..self }
        } else {
            self
        }
    }

    /// With every hold that satisfies `p` dropped.
    pub open spec fn without(self, p: spec_fn(Option<Hold>) -> bool) -> WakeView {
        WakeView { holds: swept(self.holds, p), ..self }
    }

    /// How many holds still count at `now`.
    pub open spec fn held(self, now: u64) -> nat {
        slots::count(self.holds, live(now))
    }
}

impl View for WakeState {
    type V = WakeView;

    closed spec fn view(&self) -> WakeView {
        WakeView { events: self.events, holds: self.holds@ }
    }
}

impl WakeState {
    /// The state's invariant.
    pub open spec fn wf(&self) -> bool {
        self@.wf()
    }

    pub fn new() -> (w: WakeState)
        ensures
            w.wf(),
            w@ == WakeView::fresh(),
    {
        WakeState { events: 0, holds: slots::empty_slots(MAX_WAKE_HOLDS) }
    }

    /// The system wake-event counter. Never reset: a counter that could be
    /// zeroed would let a snapshot taken before the reset compare equal to a
    /// count taken after it.
    pub fn events(&self) -> (n: u64)
        ensures
            n == self@.events,
    {
        self.events
    }

    /// Records that `source` woke the machine, and takes a grace hold for it if
    /// there is room. A full table does not lose the event: the counter has
    /// moved. Answers whether the grace hold was taken.
    pub fn record_wake(&mut self, source: ObjectId, now: u64) -> (held: bool)
        requires
            old(self).wf(),
            now + WAKE_GRACE_TICKS <= u64::MAX,
        ensures
            final(self).wf(),
            final(self)@ == old(self)@.woken(source, now),
            held == (old(self)@.vacancy() < MAX_WAKE_HOLDS),
    {
        self.events = self.events.wrapping_add(1);
        assert(self@ =~= old(self)@.counted());
        self.acquire(source, Some(now + WAKE_GRACE_TICKS)).is_ok()
    }

    /// Takes a hold for `holder`, expiring at `expires_at`. A holder may take
    /// more than one: they are separate reasons to stay awake.
    pub fn acquire(&mut self, holder: ObjectId, expires_at: Option<u64>) -> (r: Result<
        (),
        WakeError,
    >)
        requires
            old(self).wf(),
        ensures
            final(self).wf(),
            final(self)@ == old(self)@.acquired(holder, expires_at),
            match r {
                Ok(_) => old(self)@.vacancy() < MAX_WAKE_HOLDS,
                Err(e) => e == WakeError::NoSpace && old(self)@.vacancy() == MAX_WAKE_HOLDS,
            },
    {
        match slots::find_free(&self.holds) {
            None => Err(WakeError::NoSpace),
            Some(slot) => {
                self.holds[slot] = Some(Hold { holder, expires_at });
                Ok(())
            },
        }
    }

    /// Releases one of `holder`'s holds. Answers whether there was one.
    pub fn release(&mut self, holder: ObjectId) -> (was: bool)
        requires
            old(self).wf(),
        ensures
            final(self).wf(),
            final(self)@ == old(self)@.released(holder),
            was == slots::any(old(self)@.holds, owned(holder)),
    {
        let mut i: usize = 0;
        while i < MAX_WAKE_HOLDS
            invariant
                self.wf(),
                *self == *old(self),
                i <= MAX_WAKE_HOLDS,
                forall|j: int| 0 <= j < i ==> !owned(holder)(#[trigger] self@.holds[j]),
            decreases MAX_WAKE_HOLDS - i,
        {
            if let Some(h) = self.holds[i] {
                if h.holder == holder {
                    proof {
                        slots::lemma_first_is(self@.holds, owned(holder), i as int);
                        assert(owned(holder)(self@.holds[i as int]));
                    }
                    self.holds[i] = None;
                    return true;
                }
            }
            i += 1;
        }
        proof {
            slots::lemma_first_is(self@.holds, owned(holder), i as int);
        }
        false
    }

    /// Releases every hold `holder` has, and answers how many went: for a
    /// process that has died or departed.
    pub fn release_all(&mut self, holder: ObjectId) -> (n: usize)
        requires
            old(self).wf(),
        ensures
            final(self).wf(),
            final(self)@ == old(self)@.without(owned(holder)),
            n == slots::count(old(self)@.holds, owned(holder)),
    {
        let mut n: usize = 0;
        let mut i: usize = 0;
        let ghost before = self@.holds;
        while i < MAX_WAKE_HOLDS
            invariant
                self.wf(),
                self@.events == old(self)@.events,
                before == old(self)@.holds,
                before.len() == MAX_WAKE_HOLDS,
                i <= MAX_WAKE_HOLDS,
                n <= i,
                n == slots::count(before.take(i as int), owned(holder)),
                forall|j: int|
                    0 <= j < MAX_WAKE_HOLDS ==> #[trigger] self@.holds[j] == (if j < i && owned(
                        holder,
                    )(before[j]) {
                        None
                    } else {
                        before[j]
                    }),
            decreases MAX_WAKE_HOLDS - i,
        {
            proof {
                slots::lemma_count_take(before, owned(holder), i as int);
                assert(self@.holds[i as int] == before[i as int]);
            }
            if let Some(h) = self.holds[i] {
                if h.holder == holder {
                    self.holds[i] = None;
                    n += 1;
                }
            }
            i += 1;
        }
        proof {
            assert(before.take(i as int) =~= before);
            assert(self@ =~= old(self)@.without(owned(holder)));
        }
        n
    }

    /// Drops every hold whose deadline has passed, and answers how many. Expiry
    /// is what makes a hold time-limited by policy.
    pub fn expire(&mut self, now: u64) -> (n: usize)
        requires
            old(self).wf(),
        ensures
            final(self).wf(),
            final(self)@ == old(self)@.without(lapsed(now)),
            n == slots::count(old(self)@.holds, lapsed(now)),
    {
        let mut n: usize = 0;
        let mut i: usize = 0;
        let ghost before = self@.holds;
        while i < MAX_WAKE_HOLDS
            invariant
                self.wf(),
                self@.events == old(self)@.events,
                before == old(self)@.holds,
                before.len() == MAX_WAKE_HOLDS,
                i <= MAX_WAKE_HOLDS,
                n <= i,
                n == slots::count(before.take(i as int), lapsed(now)),
                forall|j: int|
                    0 <= j < MAX_WAKE_HOLDS ==> #[trigger] self@.holds[j] == (if j < i && lapsed(
                        now,
                    )(before[j]) {
                        None
                    } else {
                        before[j]
                    }),
            decreases MAX_WAKE_HOLDS - i,
        {
            proof {
                slots::lemma_count_take(before, lapsed(now), i as int);
                assert(self@.holds[i as int] == before[i as int]);
            }
            if let Some(h) = self.holds[i] {
                if let Some(at) = h.expires_at {
                    if at <= now {
                        self.holds[i] = None;
                        n += 1;
                    }
                }
            }
            i += 1;
        }
        proof {
            assert(before.take(i as int) =~= before);
            assert(self@ =~= old(self)@.without(lapsed(now)));
        }
        n
    }

    fn counts_at(&self, i: usize, now: u64) -> (b: bool)
        requires
            self.wf(),
            i < MAX_WAKE_HOLDS,
        ensures
            b == live(now)(self@.holds[i as int]),
    {
        match self.holds[i] {
            None => false,
            Some(h) => match h.expires_at {
                Some(at) => at > now,
                None => true,
            },
        }
    }

    /// Holds still counting at `now`.
    pub fn held(&self, now: u64) -> (n: usize)
        requires
            self.wf(),
        ensures
            n == self@.held(now),
            n <= MAX_WAKE_HOLDS,
    {
        let mut n: usize = 0;
        let mut i: usize = 0;
        while i < MAX_WAKE_HOLDS
            invariant
                self.wf(),
                i <= MAX_WAKE_HOLDS,
                n <= i,
                n == slots::count(self@.holds.take(i as int), live(now)),
            decreases MAX_WAKE_HOLDS - i,
        {
            proof {
                slots::lemma_count_take(self@.holds, live(now), i as int);
            }
            if self.counts_at(i, now) {
                n += 1;
            }
            i += 1;
        }
        assert(self@.holds.take(i as int) =~= self@.holds);
        n
    }

    /// Whether a suspend commit is vetoed at `now`. The kernel side of a wake
    /// hold is exactly this and nothing else.
    pub fn vetoed(&self, now: u64) -> (b: bool)
        requires
            self.wf(),
        ensures
            b == slots::any(self@.holds, live(now)),
            b == (self@.held(now) > 0),
    {
        proof {
            if slots::any(self@.holds, live(now)) {
                let i = choose|i: int|
                    0 <= i < self@.holds.len() && live(now)(#[trigger] self@.holds[i]);
                slots::lemma_count_positive(self@.holds, live(now), i);
            } else {
                slots::lemma_count_zero(self@.holds, live(now));
            }
        }
        self.held(now) > 0
    }

    /// Who holds the `index`-th live hold at `now`, for attribution in a
    /// refusal.
    pub fn holder_at(&self, now: u64, index: usize) -> (r: Option<ObjectId>)
        requires
            self.wf(),
        ensures
            ({
                let counting = self@.holds.filter(live(now));
                r == if index < counting.len() {
                    Some(counting[index as int]->0.holder)
                } else {
                    None
                }
            }),
    {
        let mut seen: usize = 0;
        let mut i: usize = 0;
        let ghost holds = self@.holds;
        let ghost p = live(now);
        while i < MAX_WAKE_HOLDS
            invariant
                self.wf(),
                holds == self@.holds,
                p == live(now),
                i <= MAX_WAKE_HOLDS,
                seen <= i,
                seen == holds.take(i as int).filter(p).len(),
                seen <= index,
            decreases MAX_WAKE_HOLDS - i,
        {
            proof {
                assert(holds.take(i + 1) =~= holds.take(i as int).push(holds[i as int]));
                holds.take(i as int).lemma_filter_push(holds[i as int], p);
            }
            if self.counts_at(i, now) {
                if seen == index {
                    proof {
                        assert(holds =~= holds.take(i + 1) + holds.skip(i + 1));
                        Seq::<Option<Hold>>::filter_distributes_over_add(
                            holds.take(i + 1),
                            holds.skip(i + 1),
                            p,
                        );
                        assert(holds.filter(p)[index as int] == holds[i as int]);
                    }
                    return match self.holds[i] {
                        Some(h) => Some(h.holder),
                        None => None,
                    };
                }
                seen += 1;
            }
            i += 1;
        }
        assert(holds.take(i as int) =~= holds);
        None
    }
}

impl Default for WakeState {
    fn default() -> (w: WakeState)
        ensures
            w.wf(),
            w@ == WakeView::fresh(),
    {
        WakeState::new()
    }
}

/// Every wake moves the counter, room for its grace hold or not, so a commit
/// that compares its snapshot sees it.
pub proof fn law_every_wake_moves_the_counter(w: WakeView, source: ObjectId, now: u64)
    requires
        w.wf(),
        now + WAKE_GRACE_TICKS <= u64::MAX,
    ensures
        w.woken(source, now).events != w.events,
        w.events < u64::MAX ==> w.woken(source, now).events == w.events + 1,
{
}

/// The counter has no way back: taking, releasing and expiring holds leave it
/// alone.
pub proof fn law_counter_has_no_way_back(
    w: WakeView,
    holder: ObjectId,
    expires_at: Option<u64>,
    now: u64,
)
    ensures
        w.acquired(holder, expires_at).events == w.events,
        w.released(holder).events == w.events,
        w.without(owned(holder)).events == w.events,
        w.without(lapsed(now)).events == w.events,
{
}

/// A fresh grace hold vetoes until its last tick and not after: it expires on
/// its own.
pub proof fn law_grace_hold_expires(w: WakeView, source: ObjectId, now: u64, at: u64)
    requires
        w.wf(),
        w.vacancy() < MAX_WAKE_HOLDS,
        now + WAKE_GRACE_TICKS <= u64::MAX,
        w.held(at) == 0,
        at >= now,
    ensures
        (w.woken(source, now).held(at) > 0) == (at < now + WAKE_GRACE_TICKS),
{
    slots::lemma_first(w.holds, slots::free::<Hold>());
    slots::lemma_count_update(
        w.holds,
        live(at),
        w.vacancy(),
        Some(Hold { holder: source, expires_at: Some((now + WAKE_GRACE_TICKS) as u64) }),
    );
}

/// A sweep drops only holds that no longer count, so it never changes a
/// verdict.
pub proof fn law_expiry_keeps_the_verdict(w: WakeView, now: u64)
    requires
        w.wf(),
    ensures
        w.without(lapsed(now)).held(now) == w.held(now),
{
    lemma_count_swept(w.holds, now);
}

proof fn lemma_count_swept(holds: Seq<Option<Hold>>, now: u64)
    ensures
        slots::count(swept(holds, lapsed(now)), live(now)) == slots::count(holds, live(now)),
    decreases holds.len(),
{
    if holds.len() > 0 {
        lemma_count_swept(holds.drop_last(), now);
        assert(swept(holds, lapsed(now)).drop_last() =~= swept(holds.drop_last(), lapsed(now)));
    }
}

/// Two holds are two reasons: releasing one of a holder's holds drops exactly
/// one, and nobody else's.
pub proof fn law_release_drops_one(w: WakeView, holder: ObjectId, other: ObjectId)
    requires
        w.wf(),
        slots::any(w.holds, owned(holder)),
    ensures
        slots::count(w.released(holder).holds, owned(holder)) + 1 == slots::count(
            w.holds,
            owned(holder),
        ),
        other != holder ==> slots::count(w.released(holder).holds, owned(other)) == slots::count(
            w.holds,
            owned(other),
        ),
{
    let at = slots::first(w.holds, owned(holder));
    slots::lemma_first(w.holds, owned(holder));
    if at == w.holds.len() {
        let i = choose|i: int| 0 <= i < w.holds.len() && owned(holder)(#[trigger] w.holds[i]);
        assert(false);
    }
    slots::lemma_count_update(w.holds, owned(holder), at, None);
    slots::lemma_count_update(w.holds, owned(other), at, None);
}

/// A departing holder takes every hold it had.
pub proof fn law_departure_leaves_nothing(w: WakeView, holder: ObjectId)
    ensures
        slots::count(w.without(owned(holder)).holds, owned(holder)) == 0,
{
    slots::lemma_count_zero(w.without(owned(holder)).holds, owned(holder));
}

/// A hold that is taken is in the table under its holder, until the tick it was
/// given, in a place that was free; every other hold stays. Without room nothing
/// changes.
pub proof fn law_a_hold_is_taken_as_asked(
    w: WakeView,
    holder: ObjectId,
    expires_at: Option<u64>,
    k: int,
)
    requires
        w.wf(),
        0 <= k < MAX_WAKE_HOLDS,
    ensures
        w.vacancy() < MAX_WAKE_HOLDS ==> {
            &&& w.holds[w.vacancy()] is None
            &&& w.acquired(holder, expires_at).holds[w.vacancy()] matches Some(h) && h.holder
                == holder && h.expires_at == expires_at
            &&& k != w.vacancy() ==> w.acquired(holder, expires_at).holds[k] == w.holds[k]
        },
        w.vacancy() == MAX_WAKE_HOLDS ==> w.acquired(holder, expires_at) == w && w.holds[k] is Some,
{
    let free = slots::free::<Hold>();
    slots::lemma_first(w.holds, free);
    if w.vacancy() == MAX_WAKE_HOLDS {
        assert(!free(w.holds[k]));
    }
}

/// A wake is held off for its grace period under its source's name.
pub proof fn law_a_wake_leaves_a_grace_hold(w: WakeView, source: ObjectId, now: u64)
    requires
        w.wf(),
        now + WAKE_GRACE_TICKS <= u64::MAX,
        w.vacancy() < MAX_WAKE_HOLDS,
    ensures
        w.woken(source, now).holds[w.vacancy()] matches Some(h) && h.holder == source
            && h.expires_at == Some((now + WAKE_GRACE_TICKS) as u64),
{
    slots::lemma_first(w.holds, slots::free::<Hold>());
}

/// A hold counts until its last tick, and one without an end for good; a sweep
/// takes those that count no longer, a departure those of the one who departs,
/// and neither takes another.
pub proof fn law_a_hold_counts_until_it_lapses(
    w: WakeView,
    h: Hold,
    holder: ObjectId,
    now: u64,
    k: int,
)
    requires
        w.wf(),
        0 <= k < MAX_WAKE_HOLDS,
    ensures
        live(now)(Some(h)) <==> (h.expires_at matches Some(at) ==> at > now),
        lapsed(now)(Some(h)) <==> !live(now)(Some(h)),
        !live(now)(None::<Hold>),
        !lapsed(now)(None::<Hold>),
        w.without(lapsed(now)).holds[k] == (if w.holds[k] matches Some(x) && (
        x.expires_at matches Some(at) && at <= now) {
            None
        } else {
            w.holds[k]
        }),
        w.without(owned(holder)).holds[k] == (if w.holds[k] matches Some(x) && x.holder == holder {
            None
        } else {
            w.holds[k]
        }),
        w.without(lapsed(now)).holds.len() == MAX_WAKE_HOLDS,
        w.without(owned(holder)).holds.len() == MAX_WAKE_HOLDS,
        WakeView::fresh().events == 0,
        WakeView::fresh().holds[k] is None,
{
}

/// Releasing takes the holder's first hold and leaves every other one.
pub proof fn law_a_release_takes_the_first(w: WakeView, holder: ObjectId, k: int)
    requires
        w.wf(),
        0 <= k < MAX_WAKE_HOLDS,
        w.holds[k] matches Some(h) && h.holder == holder,
        forall|j: int| 0 <= j < k ==> (#[trigger] w.holds[j] matches Some(h) ==> h.holder != holder),
    ensures
        w.released(holder).holds == w.holds.update(k, None),
        w.released(holder).events == w.events,
{
    assert forall|j: int| 0 <= j < k implies !owned(holder)(#[trigger] w.holds[j]) by {}
    slots::lemma_first_is(w.holds, owned(holder), k);
}

} // verus!
