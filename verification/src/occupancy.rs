//! Who is inside the executive: how many threads each CPU has suspended in a
//! blocking operation, in which one, and which CPUs have ever come by.
use vstd::prelude::*;
use vstd::arithmetic::power2::pow2;
use crate::config::MAX_CPUS;
use crate::slots;

verus! {

/// The blocking operations.
pub const SITES: usize = 8;

/// The claim of a boot in which more than one CPU reached the executive.
pub const CLAIM_MULTI_CPU: &'static str = "exec.multi-cpu";

/// A blocking operation.
#[derive(Clone, Copy, PartialEq, Eq, Debug, Structural)]
pub enum Site {
    Receive,
    ReceiveAny,
    Call,
    Reply,
    ReplyReceive,
    WaitOnAddress,
    SystemSuspend,
    PortWait,
}

impl Site {
    /// The operation's number.
    pub open spec fn number(self) -> int {
        match self {
            Site::Receive => 0,
            Site::ReceiveAny => 1,
            Site::Call => 2,
            Site::Reply => 3,
            Site::ReplyReceive => 4,
            Site::WaitOnAddress => 5,
            Site::SystemSuspend => 6,
            Site::PortWait => 7,
        }
    }

    /// The operation's number.
    pub fn index(self) -> (n: usize)
        ensures
            n == self.number(),
            n < SITES,
    {
        match self {
            Site::Receive => 0,
            Site::ReceiveAny => 1,
            Site::Call => 2,
            Site::Reply => 3,
            Site::ReplyReceive => 4,
            Site::WaitOnAddress => 5,
            Site::SystemSuspend => 6,
            Site::PortWait => 7,
        }
    }
}

/// The operation's name, as it is printed.
pub open spec fn site_name(site: int) -> &'static str {
    if site == 0 {
        "receive"
    } else if site == 1 {
        "receive_any"
    } else if site == 2 {
        "call"
    } else if site == 3 {
        "reply"
    } else if site == 4 {
        "reply_receive"
    } else if site == 5 {
        "wait_on_address"
    } else if site == 6 {
        "system_suspend"
    } else {
        "port_wait"
    }
}

fn name_of(site: usize) -> (s: &'static str)
    requires
        site < SITES,
    ensures
        s == site_name(site as int),
{
    if site == 0 {
        "receive"
    } else if site == 1 {
        "receive_any"
    } else if site == 2 {
        "call"
    } else if site == 3 {
        "reply"
    } else if site == 4 {
        "reply_receive"
    } else if site == 5 {
        "wait_on_address"
    } else if site == 6 {
        "system_suspend"
    } else {
        "port_wait"
    }
}

/// The record of who is inside.
pub struct Occupancy {
    depth: Vec<u64>,
    deepest: Vec<u64>,
    visited: Vec<bool>,
    /// Row by row, [`SITES`] to a CPU.
    entered: Vec<u64>,
    left: Vec<u64>,
}

/// What an [`Occupancy`] holds.
#[verifier::ext_equal]
pub struct OccupancyView {
    /// Threads inside, per CPU.
    pub depth: Seq<u64>,
    /// The most there have been, per CPU.
    pub deepest: Seq<u64>,
    /// Which CPUs have ever come by.
    pub visited: Seq<bool>,
    /// How often each operation was entered on each CPU.
    pub entered: Seq<u64>,
    /// How often it was left.
    pub left: Seq<u64>,
}

/// Places in the entry and exit counts.
pub const PLACES: usize = 64;

/// The place of `site` on `cpu` in the entry and exit counts.
pub open spec fn place(cpu: int, site: int) -> int {
    cpu * SITES + site
}

/// The sum of a sequence.
pub open spec fn total(s: Seq<u64>) -> nat
    decreases s.len(),
{
    if s.len() == 0 {
        0
    } else {
        total(s.drop_last()) + s.last() as nat
    }
}

/// The largest element, or 0.
pub open spec fn largest(s: Seq<u64>) -> u64
    decreases s.len(),
{
    if s.len() == 0 {
        0
    } else if largest(s.drop_last()) >= s.last() {
        largest(s.drop_last())
    } else {
        s.last()
    }
}

/// The bitmap of a sequence of flags, the first one lowest.
pub open spec fn bitmap(s: Seq<bool>) -> nat
    decreases s.len(),
{
    if s.len() == 0 {
        0
    } else {
        bitmap(s.drop_last()) + if s.last() {
            pow2((s.len() - 1) as nat)
        } else {
            0
        }
    }
}

/// The count after `n`: counts wrap around.
pub open spec fn succ(n: u64) -> u64 {
    if n == u64::MAX {
        0
    } else {
        (n + 1) as u64
    }
}

fn next_count(n: u64) -> (m: u64)
    ensures
        m == succ(n),
{
    if n == u64::MAX {
        0
    } else {
        n + 1
    }
}

/// The predicate of a CPU that has come by.
pub open spec fn came() -> spec_fn(bool) -> bool {
    |b: bool| b
}

impl OccupancyView {
    /// Nobody inside.
    pub open spec fn fresh() -> OccupancyView {
        OccupancyView {
            depth: Seq::new(MAX_CPUS as nat, |i: int| 0u64),
            deepest: Seq::new(MAX_CPUS as nat, |i: int| 0u64),
            visited: Seq::new(MAX_CPUS as nat, |i: int| false),
            entered: Seq::new(PLACES as nat, |i: int| 0u64),
            left: Seq::new(PLACES as nat, |i: int| 0u64),
        }
    }

    /// Every table has its capacity, and no CPU is deeper than its deepest.
    pub open spec fn wf(self) -> bool {
        &&& self.depth.len() == MAX_CPUS
        &&& self.deepest.len() == MAX_CPUS
        &&& self.visited.len() == MAX_CPUS
        &&& self.entered.len() == PLACES
        &&& self.left.len() == PLACES
        &&& forall|i: int| 0 <= i < MAX_CPUS ==> #[trigger] self.depth[i] <= self.deepest[i]
    }

    /// The threads inside `site` on the first `n` CPUs, counted up to the
    /// largest number there is.
    pub open spec fn live(self, site: int, n: int) -> u64
        decreases n,
    {
        if n <= 0 {
            0
        } else {
            let before = self.live(site, n - 1);
            let here = self.inside(n - 1, site);
            if before + here > u64::MAX {
                u64::MAX
            } else {
                (before + here) as u64
            }
        }
    }

    /// The threads inside `site` on `cpu`.
    pub open spec fn inside(self, cpu: int, site: int) -> u64 {
        let a = self.entered[place(cpu, site)];
        let b = self.left[place(cpu, site)];
        if a > b {
            (a - b) as u64
        } else {
            0
        }
    }

    /// With a thread more inside `site` on `cpu`.
    pub open spec fn with_entry(self, cpu: u32, site: int) -> OccupancyView {
        if cpu < MAX_CPUS {
            let c = cpu as int;
            let now = succ(self.depth[c]);
            OccupancyView {
                depth: self.depth.update(c, now),
                deepest: self.deepest.update(
                    c,
                    if now > self.deepest[c] {
                        now
                    } else {
                        self.deepest[c]
                    },
                ),
                entered: self.entered.update(
                    place(c, site),
                    succ(self.entered[place(c, site)]),
                ),
                ..self
            }
        } else {
            self
        }
    }

    /// With a thread less inside `site` on `cpu`.
    pub open spec fn with_exit(self, cpu: u32, site: int) -> OccupancyView {
        if cpu < MAX_CPUS {
            let c = cpu as int;
            OccupancyView {
                depth: self.depth.update(
                    c,
                    if self.depth[c] == 0 {
                        0
                    } else {
                        (self.depth[c] - 1) as u64
                    },
                ),
                left: self.left.update(place(c, site), succ(self.left[place(c, site)])),
                ..self
            }
        } else {
            self
        }
    }
}

impl View for Occupancy {
    type V = OccupancyView;

    closed spec fn view(&self) -> OccupancyView {
        OccupancyView {
            depth: self.depth@,
            deepest: self.deepest@,
            visited: self.visited@,
            entered: self.entered@,
            left: self.left@,
        }
    }
}

impl Occupancy {
    /// The record's invariant.
    pub open spec fn wf(&self) -> bool {
        self@.wf()
    }

    pub fn new() -> (o: Occupancy)
        ensures
            o.wf(),
            o@ == OccupancyView::fresh(),
    {
        let o = Occupancy {
            depth: vec![0u64; MAX_CPUS],
            deepest: vec![0u64; MAX_CPUS],
            visited: vec![false; MAX_CPUS],
            entered: vec![0u64; PLACES],
            left: vec![0u64; PLACES],
        };
        assert(o@ =~= OccupancyView::fresh());
        o
    }
}

/// With `cpu` among those that came by, if it is a CPU.
pub open spec fn visited_by(v: OccupancyView, cpu: u32) -> OccupancyView {
    if cpu < MAX_CPUS {
        OccupancyView { visited: v.visited.update(cpu as int, true), ..v }
    } else {
        v
    }
}

/// Records that `cpu` reached the executive.
pub fn note_visit_from(o: &mut Occupancy, cpu: u32)
    requires
        old(o).wf(),
    ensures
        final(o).wf(),
        final(o)@ == visited_by(old(o)@, cpu),
{
    if (cpu as usize) < MAX_CPUS {
        o.visited[cpu as usize] = true;
    }
}

/// Records that the CPU running this reached the executive.
pub fn note_visit(o: &mut Occupancy, current: u32)
    requires
        old(o).wf(),
    ensures
        final(o).wf(),
        final(o)@ == visited_by(old(o)@, current),
{
    note_visit_from(o, current)
}

/// The CPUs that have reached the executive, as a bitmap.
pub fn visitors(o: &Occupancy) -> (mask: u64)
    requires
        o.wf(),
    ensures
        mask == bitmap(o@.visited),
{
    let mut mask: u64 = 0;
    let mut bit: u64 = 1;
    let mut i: usize = 0;
    proof {
        vstd::arithmetic::power2::lemma2_to64();
        assert(o@.visited.take(0) =~= Seq::empty());
    }
    while i < MAX_CPUS
        invariant
            o.wf(),
            i <= MAX_CPUS,
            bit == pow2(i as nat),
            pow2(8) == 256,
            mask == bitmap(o@.visited.take(i as int)),
            mask < bit,
        decreases MAX_CPUS - i,
    {
        proof {
            let s = o@.visited;
            assert(s.take(i + 1).drop_last() =~= s.take(i as int));
            assert(s.take(i + 1).last() == s[i as int]);
            vstd::arithmetic::power2::lemma_pow2_unfold((i + 1) as nat);
            if i < 8 {
                vstd::arithmetic::power2::lemma_pow2_strictly_increases(i as nat, 8);
            }
        }
        if o.visited[i] {
            mask = mask + bit;
        }
        bit = bit * 2;
        i += 1;
    }
    assert(o@.visited.take(i as int) =~= o@.visited);
    mask
}

/// How many CPUs have reached the executive.
pub fn visitor_count(o: &Occupancy) -> (n: u32)
    requires
        o.wf(),
    ensures
        n == slots::count(o@.visited, came()),
        n <= MAX_CPUS,
{
    let mut n: u32 = 0;
    let mut i: usize = 0;
    assert(o@.visited.take(0) =~= Seq::empty());
    while i < MAX_CPUS
        invariant
            o.wf(),
            i <= MAX_CPUS,
            n <= i,
            n == slots::count(o@.visited.take(i as int), came()),
        decreases MAX_CPUS - i,
    {
        proof {
            slots::lemma_count_take(o@.visited, came(), i as int);
        }
        if o.visited[i] {
            n += 1;
        }
        i += 1;
    }
    assert(o@.visited.take(i as int) =~= o@.visited);
    n
}

/// How many threads are inside a blocking operation right now, on every CPU.
pub fn current(o: &Occupancy) -> (n: u64)
    requires
        o.wf(),
        total(o@.depth) <= u64::MAX,
    ensures
        n == total(o@.depth),
{
    let mut n: u64 = 0;
    let mut i: usize = 0;
    assert(o@.depth.take(0) =~= Seq::empty());
    while i < MAX_CPUS
        invariant
            o.wf(),
            i <= MAX_CPUS,
            total(o@.depth) <= u64::MAX,
            n == total(o@.depth.take(i as int)),
        decreases MAX_CPUS - i,
    {
        proof {
            let s = o@.depth;
            assert(s.take(i + 1).drop_last() =~= s.take(i as int));
            assert(s.take(i + 1).last() == s[i as int]);
            lemma_total_take(s, i + 1);
        }
        n = n + o.depth[i];
        i += 1;
    }
    assert(o@.depth.take(i as int) =~= o@.depth);
    n
}

/// A part sums to no more than the whole.
proof fn lemma_total_take(s: Seq<u64>, n: int)
    requires
        0 <= n <= s.len(),
    ensures
        total(s.take(n)) <= total(s),
    decreases s.len() - n,
{
    if n == s.len() {
        assert(s.take(n) =~= s);
    } else {
        lemma_total_take(s, n + 1);
        assert(s.take(n + 1).drop_last() =~= s.take(n));
    }
}

/// The deepest any one CPU has nested.
pub fn deepest(o: &Occupancy) -> (n: u64)
    requires
        o.wf(),
    ensures
        n == largest(o@.deepest),
{
    let mut n: u64 = 0;
    let mut i: usize = 0;
    assert(o@.deepest.take(0) =~= Seq::empty());
    while i < MAX_CPUS
        invariant
            o.wf(),
            i <= MAX_CPUS,
            n == largest(o@.deepest.take(i as int)),
        decreases MAX_CPUS - i,
    {
        proof {
            let s = o@.deepest;
            assert(s.take(i + 1).drop_last() =~= s.take(i as int));
            assert(s.take(i + 1).last() == s[i as int]);
        }
        if o.deepest[i] > n {
            n = o.deepest[i];
        }
        i += 1;
    }
    assert(o@.deepest.take(i as int) =~= o@.deepest);
    n
}

/// How many threads are inside `site` right now, on every CPU.
pub fn at_site(o: &Occupancy, site: Site) -> (n: u64)
    requires
        o.wf(),
    ensures
        n == o@.live(site.number(), MAX_CPUS as int),
{
    live_at(o, site.index())
}

fn live_at(o: &Occupancy, site: usize) -> (n: u64)
    requires
        o.wf(),
        site < SITES,
    ensures
        n == o@.live(site as int, MAX_CPUS as int),
{
    let mut live: u64 = 0;
    let mut cpu: usize = 0;
    while cpu < MAX_CPUS
        invariant
            o.wf(),
            site < SITES,
            cpu <= MAX_CPUS,
            live == o@.live(site as int, cpu as int),
        decreases MAX_CPUS - cpu,
    {
        let at: usize = cpu * SITES + site;
        let here: u64 = if o.entered[at] > o.left[at] {
            o.entered[at] - o.left[at]
        } else {
            0
        };
        assert(here == o@.inside(cpu as int, site as int));
        live =
        if live > u64::MAX - here {
            u64::MAX
        } else {
            live + here
        };
        cpu += 1;
    }
    live
}

/// Marks a thread of `cpu` as inside `site`. The counts wrap around.
pub(crate) fn mark_entry(o: &mut Occupancy, cpu: u32, site: Site)
    requires
        old(o).wf(),
    ensures
        final(o).wf(),
        final(o)@ == old(o)@.with_entry(cpu, site.number()),
{
    let ghost v = o@;
    if (cpu as usize) < MAX_CPUS {
        let c: usize = cpu as usize;
        let at: usize = c * SITES + site.index();
        o.entered[at] = next_count(o.entered[at]);
        let now: u64 = next_count(o.depth[c]);
        o.depth[c] = now;
        if now > o.deepest[c] {
            o.deepest[c] = now;
        }
    }
    assert(o@ =~= v.with_entry(cpu, site.number()));
}

/// Marks a thread of `cpu` as having left `site`.
pub(crate) fn mark_exit(o: &mut Occupancy, cpu: u32, site: Site)
    requires
        old(o).wf(),
    ensures
        final(o).wf(),
        final(o)@ == old(o)@.with_exit(cpu, site.number()),
{
    let ghost v = o@;
    if (cpu as usize) < MAX_CPUS {
        let c: usize = cpu as usize;
        let at: usize = c * SITES + site.index();
        o.left[at] = next_count(o.left[at]);
        if o.depth[c] > 0 {
            o.depth[c] = o.depth[c] - 1;
        }
    }
    assert(o@ =~= v.with_exit(cpu, site.number()));
}

/// A thread inside a blocking operation, on the CPU it entered on.
pub struct Inside {
    cpu: u32,
    site: Site,
}

impl Inside {
    pub closed spec fn on(self) -> u32 {
        self.cpu
    }

    pub closed spec fn within(self) -> Site {
        self.site
    }

    /// Marks a thread of `cpu` as inside `site`, until it is given to
    /// [`Inside::leave`].
    pub fn enter(o: &mut Occupancy, cpu: u32, site: Site) -> (i: Inside)
        requires
            old(o).wf(),
        ensures
            final(o).wf(),
            final(o)@ == old(o)@.with_entry(cpu, site.number()),
            i.on() == cpu,
            i.within() == site,
    {
        mark_entry(o, cpu, site);
        Inside { cpu, site }
    }

    /// The thread has left.
    pub fn leave(self, o: &mut Occupancy)
        requires
            old(o).wf(),
        ensures
            final(o).wf(),
            final(o)@ == old(o)@.with_exit(self.on(), self.within().number()),
    {
        mark_exit(o, self.cpu, self.site)
    }
}

/// The operations that still have a thread inside, by name, with how many.
pub fn report_sites(o: &Occupancy) -> (out: Vec<(&'static str, u64)>)
    requires
        o.wf(),
    ensures
        out@ == occupied_sites(o@, SITES as int),
{
    let mut out: Vec<(&'static str, u64)> = Vec::new();
    let mut site: usize = 0;
    while site < SITES
        invariant
            o.wf(),
            site <= SITES,
            out@ == occupied_sites(o@, site as int),
        decreases SITES - site,
    {
        let live: u64 = live_at(o, site);
        if live > 0 {
            out.push((name_of(site), live));
        }
        site += 1;
    }
    out
}

/// The first `n` operations that have a thread inside, by name, with how many.
pub open spec fn occupied_sites(v: OccupancyView, n: int) -> Seq<(&'static str, u64)>
    decreases n,
{
    if n <= 0 {
        Seq::empty()
    } else {
        let live = v.live(n - 1, MAX_CPUS as int);
        if live > 0 {
            occupied_sites(v, n - 1).push((site_name(n - 1), live))
        } else {
            occupied_sites(v, n - 1)
        }
    }
}

/// The claim this boot has earned, if it has: more than one CPU came by.
pub fn report(o: &Occupancy) -> (claim: Option<&'static str>)
    requires
        o.wf(),
    ensures
        claim == if slots::count(o@.visited, came()) > 1 {
            Some(CLAIM_MULTI_CPU)
        } else {
            None
        },
{
    if visitor_count(o) > 1 {
        Some(CLAIM_MULTI_CPU)
    } else {
        None
    }
}

/// A thread that enters and leaves is no longer inside, on any CPU, and only
/// the deepest mark may remember it.
pub proof fn law_leaving_undoes_entering(v: OccupancyView, cpu: u32, site: Site, other: Site, n: int)
    requires
        v.wf(),
        cpu < MAX_CPUS,
        v.depth[cpu as int] < u64::MAX,
        v.entered[place(cpu as int, site.number())] < u64::MAX,
        v.left[place(cpu as int, site.number())] < u64::MAX,
        0 <= n <= MAX_CPUS,
    ensures
        ({
            let w = v.with_entry(cpu, site.number()).with_exit(cpu, site.number());
            &&& w.depth == v.depth
            &&& w.visited == v.visited
            &&& w.live(other.number(), n) == v.live(other.number(), n)
        }),
    decreases n,
{
    let w = v.with_entry(cpu, site.number()).with_exit(cpu, site.number());
    assert(w.depth =~= v.depth);
    if n > 0 {
        law_leaving_undoes_entering(v, cpu, site, other, n - 1);
        assert(w.inside(n - 1, other.number()) == v.inside(n - 1, other.number())) by {
            let at = place(n - 1, other.number());
            let hit = place(cpu as int, site.number());
            assert(0 <= at < PLACES && 0 <= hit < PLACES);
        }
    }
}

/// A visit is never forgotten.
pub proof fn law_visits_are_kept(v: OccupancyView, cpu: u32, earlier: u32)
    requires
        v.wf(),
        cpu < MAX_CPUS,
        earlier < MAX_CPUS,
        v.visited[earlier as int],
    ensures
        visited_by(v, cpu).visited[earlier as int],
{
}

/// Entering counts one more on that CPU and at that site of it, and remembers the
/// deepest; nowhere else is anything counted.
pub proof fn law_entering_counts_where_it_happens(
    v: OccupancyView,
    cpu: u32,
    site: Site,
    c: int,
    p: int,
)
    requires
        v.wf(),
        cpu < MAX_CPUS,
        v.depth[cpu as int] < u64::MAX,
        v.entered[place(cpu as int, site.number())] < u64::MAX,
        0 <= c < MAX_CPUS,
        0 <= p < PLACES,
    ensures
        ({
            let w = v.with_entry(cpu, site.number());
            let here = cpu as int * SITES + site.number();
            &&& w.depth[cpu as int] == v.depth[cpu as int] + 1
            &&& c != cpu ==> w.depth[c] == v.depth[c] && w.deepest[c] == v.deepest[c]
            &&& w.deepest[cpu as int] >= w.depth[cpu as int]
            &&& w.deepest[cpu as int] == v.deepest[cpu as int] || w.deepest[cpu as int]
                == w.depth[cpu as int]
            &&& w.deepest[cpu as int] >= v.deepest[cpu as int]
            &&& w.entered[here] == v.entered[here] + 1
            &&& p != here ==> w.entered[p] == v.entered[p]
            &&& w.left == v.left && w.visited == v.visited
        }),
{
}

/// Leaving counts one fewer on that CPU and one departure at that site of it.
pub proof fn law_leaving_counts_where_it_happens(
    v: OccupancyView,
    cpu: u32,
    site: Site,
    c: int,
    p: int,
)
    requires
        v.wf(),
        cpu < MAX_CPUS,
        v.left[place(cpu as int, site.number())] < u64::MAX,
        0 <= c < MAX_CPUS,
        0 <= p < PLACES,
    ensures
        ({
            let w = v.with_exit(cpu, site.number());
            let here = cpu as int * SITES + site.number();
            &&& v.depth[cpu as int] > 0 ==> w.depth[cpu as int] == v.depth[cpu as int] - 1
            &&& v.depth[cpu as int] == 0 ==> w.depth[cpu as int] == 0
            &&& c != cpu ==> w.depth[c] == v.depth[c]
            &&& w.left[here] == v.left[here] + 1
            &&& p != here ==> w.left[p] == v.left[p]
            &&& w.entered == v.entered && w.deepest == v.deepest && w.visited == v.visited
        }),
{
}

/// How many are inside a site is how many entered less how many left, summed over
/// the CPUs.
pub proof fn law_inside_is_entered_less_left(v: OccupancyView, site: Site, cpu: int, n: int)
    requires
        v.wf(),
        0 <= cpu < MAX_CPUS,
        0 < n <= MAX_CPUS,
    ensures
        ({
            let at = cpu * SITES + site.number();
            &&& v.entered[at] >= v.left[at] ==> v.inside(cpu, site.number()) == v.entered[at]
                - v.left[at]
            &&& v.entered[at] < v.left[at] ==> v.inside(cpu, site.number()) == 0
        }),
        v.live(site.number(), 0) == 0,
        v.live(site.number(), n - 1) + v.inside(n - 1, site.number()) <= u64::MAX ==> v.live(
            site.number(),
            n,
        ) == v.live(site.number(), n - 1) + v.inside(n - 1, site.number()),
        v.live(site.number(), n) >= v.live(site.number(), n - 1),
{
}

/// Each site has a number and a name of its own.
pub proof fn law_each_site_has_its_number_and_name(a: Site, b: Site)
    ensures
        0 <= a.number() < SITES,
        a.number() == b.number() ==> a == b,
        site_name(Site::Receive.number()) == "receive",
        site_name(Site::ReceiveAny.number()) == "receive_any",
        site_name(Site::Call.number()) == "call",
        site_name(Site::Reply.number()) == "reply",
        site_name(Site::ReplyReceive.number()) == "reply_receive",
        site_name(Site::WaitOnAddress.number()) == "wait_on_address",
        site_name(Site::SystemSuspend.number()) == "system_suspend",
        site_name(Site::PortWait.number()) == "port_wait",
{
}

/// The total is the sum, the largest is one of the values and at least each of
/// them, and a CPU that came is one more bit, its own.
pub proof fn law_sums_largest_and_bits(s: Seq<u64>, x: u64, came_by: Seq<bool>, i: int)
    ensures
        total(s.push(x)) == total(s) + x,
        total(Seq::empty()) == 0,
        0 <= i < s.len() ==> s[i] <= largest(s),
        s.len() > 0 ==> s.contains(largest(s)),
        largest(Seq::empty()) == 0,
        bitmap(came_by.push(true)) == bitmap(came_by) + pow2(came_by.len()),
        bitmap(came_by.push(false)) == bitmap(came_by),
        bitmap(Seq::empty()) == 0,
    decreases s.len(),
{
    assert(s.push(x).drop_last() =~= s);
    assert(came_by.push(true).drop_last() =~= came_by);
    assert(came_by.push(false).drop_last() =~= came_by);
    if s.len() > 0 {
        let rest = s.drop_last();
        law_sums_largest_and_bits(rest, x, came_by, i);
        if largest(rest) >= s.last() {
            if rest.len() > 0 {
                let k = choose|k: int| 0 <= k < rest.len() && rest[k] == largest(rest);
                assert(s[k] == largest(s));
            } else {
                assert(s[0] == largest(s));
            }
        } else {
            assert(s[s.len() - 1] == largest(s));
        }
        if 0 <= i < rest.len() {
            assert(rest[i] == s[i]);
        }
    }
}

/// A site is reported exactly while somebody is inside, by its name and with how
/// many.
pub proof fn law_an_occupied_site_is_reported(v: OccupancyView, n: int)
    requires
        0 < n <= SITES,
    ensures
        ({
            let live = v.live(n - 1, MAX_CPUS as int);
            let before = occupied_sites(v, n - 1);
            &&& live > 0 ==> occupied_sites(v, n) == before.push((site_name(n - 1), live))
            &&& live == 0 ==> occupied_sites(v, n) == before
        }),
        occupied_sites(v, 0).len() == 0,
{
}

/// A visit is remembered for its CPU, and for no other.
pub proof fn law_a_visit_is_its_cpus(v: OccupancyView, cpu: u32, c: int)
    requires
        v.wf(),
        0 <= c < MAX_CPUS,
    ensures
        cpu == c ==> visited_by(v, cpu).visited[c],
        cpu != c ==> visited_by(v, cpu).visited[c] == v.visited[c],
        visited_by(v, cpu).depth == v.depth,
        !OccupancyView::fresh().visited[c],
        OccupancyView::fresh().depth[c] == 0,
{
}

} // verus!
