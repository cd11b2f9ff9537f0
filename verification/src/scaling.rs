//! Whether the kernel goes faster with more CPUs: independent workers, one per
//! CPU, do the same work in phases of one, two, ... all of them, and the wall
//! clock says how much the wider phases cost.
//!
//! The boot CPU drives the phases; each worker is a client and a server on one
//! CPU, and then a loop of page fills in an address space of its own.
use vstd::prelude::*;
use crate::config::{FRAME_SIZE, MAX_CHANNELS};
use crate::exec::{ExecView, Executive};
use crate::ipc::{
    channel_vacancy, ChannelView, ChannelsView, EndpointId, Message, MessageHeader, MessageView,
};
use crate::slots;

verus! {

/// Round trips each worker makes in each phase it takes part in.
pub const ROUNDS: usize = 200;

/// Pages each worker fills in each phase it takes part in.
pub const FAULT_ROUNDS: usize = 64;

/// Frames for the page tables the fills are mapped through.
pub const FAULT_TABLE_SLACK: usize = 16;

/// Workers the benchmark can hold: every CPU but the boot CPU.
pub const MAX_WORKERS: usize = 7;

/// Phases of both kinds.
pub const MAX_PHASES: usize = 14;

/// Frames one worker's pool must hold at most.
pub const FAULT_FRAMES: usize = 464;

/// Where each worker's region starts, in its own address space.
pub const FAULT_BASE: u64 = 0x4000_0000;

/// The interface and method the workers call.
pub const SCALING_INTERFACE: u64 = 0x42_0013;

pub const SCALING_METHOD: u32 = 1;

/// The claim of a boot in which every worker did all its work and no wakeup
/// crossed a CPU.
pub const CLAIM_SCALING_REPLICATED: &'static str = "perf.scaling-replicated";

/// What a phase measures.
#[derive(Clone, Copy, PartialEq, Eq, Debug, Structural)]
pub enum PhaseKind {
    /// Synchronous calls between a client and a server on one CPU.
    Ipc,
    /// Zero-filled pages in a private mapping.
    Fault,
}

/// What one phase did.
#[derive(Clone, Copy, PartialEq, Eq, Debug, Structural)]
pub struct Phase {
    /// Workers that took part.
    pub active: usize,
    pub kind: PhaseKind,
    /// From the first worker starting to the last one ending.
    pub window: u64,
    /// Waits for the machine lock during the phase.
    pub contended: u64,
}

/// The benchmark's state.
pub struct Scaling {
    client: Vec<Option<EndpointId>>,
    server: Vec<Option<EndpointId>>,
    workers: usize,
    phase: Option<usize>,
    active: usize,
    reported: u64,
    started_at: Vec<u64>,
    ended_at: Vec<u64>,
    completed: Vec<u64>,
    crossings: u64,
    contended: Vec<u64>,
}

/// What a [`Scaling`] holds.
#[verifier::ext_equal]
pub struct ScalingView {
    /// Each worker's channel, both ends.
    pub client: Seq<Option<EndpointId>>,
    pub server: Seq<Option<EndpointId>>,
    /// Workers set up.
    pub workers: usize,
    /// The phase now running.
    pub phase: Option<usize>,
    /// Workers taking part in it.
    pub active: usize,
    /// Workers that have finished it, whether they took part or not.
    pub reported: u64,
    pub started_at: Seq<u64>,
    pub ended_at: Seq<u64>,
    /// Work each worker has done, over the whole run.
    pub completed: Seq<u64>,
    /// Wakeups that crossed a CPU during the run.
    pub crossings: u64,
    /// Waits for the machine lock, by phase.
    pub contended: Seq<u64>,
}

/// The channel table after `n` channels are created.
pub open spec fn opened(t: ChannelsView, n: int) -> ChannelsView
    decreases n,
{
    if n <= 0 {
        t
    } else {
        let before = opened(t, n - 1);
        before.update(channel_vacancy(before), Some(ChannelView::fresh()))
    }
}

/// The client end of the `n`-th channel created.
pub open spec fn opened_end(t: ChannelsView, n: int) -> EndpointId {
    EndpointId { channel: channel_vacancy(opened(t, n)) as usize, side: 0 }
}

/// The earliest of the first `n`, or the largest number there is.
pub open spec fn earliest(s: Seq<u64>, n: int) -> u64
    decreases n,
{
    if n <= 0 {
        u64::MAX
    } else if earliest(s, n - 1) <= s[n - 1] {
        earliest(s, n - 1)
    } else {
        s[n - 1]
    }
}

/// The latest of the first `n`, or 0.
pub open spec fn latest(s: Seq<u64>, n: int) -> u64
    decreases n,
{
    if n <= 0 {
        0
    } else if latest(s, n - 1) >= s[n - 1] {
        latest(s, n - 1)
    } else {
        s[n - 1]
    }
}

/// `a - b`, or 0.
pub open spec fn less(a: u64, b: u64) -> u64 {
    if a > b {
        (a - b) as u64
    } else {
        0
    }
}

fn subtract(a: u64, b: u64) -> (r: u64)
    ensures
        r == less(a, b),
{
    if a > b {
        a - b
    } else {
        0
    }
}

impl ScalingView {
    pub open spec fn fresh() -> ScalingView {
        ScalingView {
            client: slots::empty(MAX_WORKERS as nat),
            server: slots::empty(MAX_WORKERS as nat),
            workers: 0,
            phase: None,
            active: 0,
            reported: 0,
            started_at: Seq::new(MAX_WORKERS as nat, |i: int| 0u64),
            ended_at: Seq::new(MAX_WORKERS as nat, |i: int| 0u64),
            completed: Seq::new(MAX_WORKERS as nat, |i: int| 0u64),
            crossings: 0,
            contended: Seq::new(MAX_PHASES as nat, |i: int| 0u64),
        }
    }

    pub open spec fn wf(self) -> bool {
        &&& self.client.len() == MAX_WORKERS
        &&& self.server.len() == MAX_WORKERS
        &&& self.workers <= MAX_WORKERS
        &&& self.active <= MAX_WORKERS
        &&& self.started_at.len() == MAX_WORKERS
        &&& self.ended_at.len() == MAX_WORKERS
        &&& self.completed.len() == MAX_WORKERS
        &&& self.contended.len() == MAX_PHASES
    }

    /// What phase `phase` measures: calls first, then fills.
    pub open spec fn kind(self, phase: int) -> PhaseKind {
        if phase < self.workers {
            PhaseKind::Ipc
        } else {
            PhaseKind::Fault
        }
    }

    /// How many workers take part in phase `phase`: one in the first of each
    /// kind, all of them in the last.
    pub open spec fn active_in(self, phase: int) -> int {
        if self.workers == 0 {
            1
        } else {
            phase % (self.workers as int) + 1
        }
    }

    /// Phases of one kind that `worker` takes part in.
    pub open spec fn share(self, worker: int) -> int {
        if worker < self.workers {
            self.workers - worker
        } else {
            0
        }
    }

    /// Work `worker` owes over the whole run.
    pub open spec fn owes(self, worker: int) -> int {
        (ROUNDS + FAULT_ROUNDS) * self.share(worker)
    }

    /// Whether every worker has done all its work.
    pub open spec fn all_done(self) -> bool {
        &&& self.workers > 0
        &&& forall|w: int|
            0 <= w < self.workers ==> #[trigger] self.completed[w] == self.owes(w)
    }

    /// Work the first `n` workers still owe.
    pub open spec fn shortfall(self, n: int) -> nat
        decreases n,
    {
        if n <= 0 {
            0
        } else {
            self.shortfall(n - 1) + less(self.owes(n - 1) as u64, self.completed[n - 1]) as nat
        }
    }
}

impl View for Scaling {
    type V = ScalingView;

    closed spec fn view(&self) -> ScalingView {
        ScalingView {
            client: self.client@,
            server: self.server@,
            workers: self.workers,
            phase: self.phase,
            active: self.active,
            reported: self.reported,
            started_at: self.started_at@,
            ended_at: self.ended_at@,
            completed: self.completed@,
            crossings: self.crossings,
            contended: self.contended@,
        }
    }
}

impl Scaling {
    pub open spec fn wf(&self) -> bool {
        self@.wf()
    }

    pub fn new() -> (s: Scaling)
        ensures
            s.wf(),
            s@ == ScalingView::fresh(),
    {
        let s = Scaling {
            client: slots::empty_slots(MAX_WORKERS),
            server: slots::empty_slots(MAX_WORKERS),
            workers: 0,
            phase: None,
            active: 0,
            reported: 0,
            started_at: vec![0u64; MAX_WORKERS],
            ended_at: vec![0u64; MAX_WORKERS],
            completed: vec![0u64; MAX_WORKERS],
            crossings: 0,
            contended: vec![0u64; MAX_PHASES],
        };
        assert(s@ =~= ScalingView::fresh());
        s
    }
}

/// What opening came to when `made` of `wanted` channels could be created.
pub open spec fn opening(
    v: ExecView,
    w: ExecView,
    a: ScalingView,
    b: ScalingView,
    wanted: int,
    made: int,
    r: bool,
) -> bool {
    let t = v.machine.channels;
    &&& 0 <= made <= wanted
    &&& forall|i: int| 0 <= i < made ==> channel_vacancy(#[trigger] opened(t, i)) < MAX_CHANNELS
    &&& made < wanted ==> channel_vacancy(opened(t, made)) == MAX_CHANNELS
    &&& w == v.with_channels(opened(t, made))
    &&& b == (ScalingView {
        client: b.client,
        server: b.server,
        workers: if made == wanted {
            wanted as usize
        } else {
            a.workers
        },
        ..a
    })
    &&& b.client.len() == MAX_WORKERS && b.server.len() == MAX_WORKERS
    &&& forall|i: int|
        0 <= i < MAX_WORKERS ==> #[trigger] b.client[i] == (if i < made {
            Some(opened_end(t, i))
        } else {
            a.client[i]
        })
    &&& forall|i: int|
        0 <= i < MAX_WORKERS ==> #[trigger] b.server[i] == (if i < made {
            Some(opened_end(t, i).peer())
        } else {
            a.server[i]
        })
    &&& r == (made == wanted && wanted > 0)
}

/// `workers`, but no more than the benchmark can hold.
pub open spec fn at_most_all(workers: usize) -> int {
    if workers <= MAX_WORKERS {
        workers as int
    } else {
        MAX_WORKERS as int
    }
}

/// Creates one channel per worker, for as many workers as the benchmark can
/// hold. `false` when there is none, or when the channels run out.
pub fn open(s: &mut Scaling, exec: &mut Executive, workers: usize) -> (r: bool)
    requires
        old(s).wf(),
        old(exec).wf(),
    ensures
        final(s).wf(),
        final(exec).wf(),
        exists|made: int| #[trigger]
            opening(
                old(exec)@,
                final(exec)@,
                old(s)@,
                final(s)@,
                at_most_all(workers),
                made,
                r,
            ),
{
    let wanted: usize = if workers <= MAX_WORKERS {
        workers
    } else {
        MAX_WORKERS
    };
    let ghost v = exec@;
    let ghost a = s@;
    let ghost t = v.machine.channels;
    let mut i: usize = 0;
    assert(v.with_channels(t) =~= v);
    while i < wanted
        invariant
            s.wf(),
            exec.wf(),
            wanted <= MAX_WORKERS,
            wanted == at_most_all(workers),
            i <= wanted,
            v == old(exec)@,
            a == old(s)@,
            t == v.machine.channels,
            exec@ == v.with_channels(opened(t, i as int)),
            s@ == (ScalingView { client: s@.client, server: s@.server, ..a }),
            forall|k: int|
                0 <= k < i ==> channel_vacancy(#[trigger] opened(t, k)) < MAX_CHANNELS,
            forall|k: int|
                0 <= k < MAX_WORKERS ==> #[trigger] s@.client[k] == (if k < i {
                    Some(opened_end(t, k))
                } else {
                    a.client[k]
                }),
            forall|k: int|
                0 <= k < MAX_WORKERS ==> #[trigger] s@.server[k] == (if k < i {
                    Some(opened_end(t, k).peer())
                } else {
                    a.server[k]
                }),
        decreases wanted - i,
    {
        match exec.channel_create() {
            Err(_) => {
                assert(opening(v, exec@, a, s@, wanted as int, i as int, false));
                return false;
            },
            Ok((client, server)) => {
                s.server[i] = Some(server);
                s.client[i] = Some(client);
                assert(exec@ =~= v.with_channels(opened(t, i + 1)));
            },
        }
        i += 1;
    }
    s.workers = wanted;
    assert(opening(v, exec@, a, s@, wanted as int, wanted as int, wanted > 0));
    wanted > 0
}

/// How many workers were set up.
pub fn workers(s: &Scaling) -> (n: usize)
    ensures
        n == s@.workers,
{
    s.workers
}

/// Phases of each kind: one per number of workers.
pub fn phases(s: &Scaling) -> (n: usize)
    ensures
        n == s@.workers,
{
    s.workers
}

/// What phase `phase` measures.
pub fn kind_of(s: &Scaling, phase: usize) -> (k: PhaseKind)
    ensures
        k == s@.kind(phase as int),
{
    if phase < s.workers {
        PhaseKind::Ipc
    } else {
        PhaseKind::Fault
    }
}

/// How many workers take part in phase `phase`.
fn active_in(s: &Scaling, phase: usize) -> (n: usize)
    requires
        s.wf(),
    ensures
        n == s@.active_in(phase as int),
        n <= MAX_WORKERS,
{
    if s.workers == 0 {
        return 1;
    }
    phase % s.workers + 1
}

fn share(s: &Scaling, worker: usize) -> (n: usize)
    requires
        s.wf(),
    ensures
        n == s@.share(worker as int),
        n <= MAX_WORKERS,
{
    if worker < s.workers {
        s.workers - worker
    } else {
        0
    }
}

/// Round trips `worker` makes over the whole run.
pub fn rounds_for(s: &Scaling, worker: usize) -> (n: usize)
    requires
        s.wf(),
    ensures
        n == ROUNDS * s@.share(worker as int),
        n <= 1400,
{
    ROUNDS * share(s, worker)
}

/// Pages `worker` fills over the whole run.
pub fn faults_for(s: &Scaling, worker: usize) -> (n: usize)
    requires
        s.wf(),
    ensures
        n == FAULT_ROUNDS * s@.share(worker as int),
        n <= 448,
{
    FAULT_ROUNDS * share(s, worker)
}

/// Frames the pool of `worker` must hold: its fills, and the page tables they
/// are mapped through.
pub fn frames_for(s: &Scaling, worker: usize) -> (n: usize)
    requires
        s.wf(),
    ensures
        n == FAULT_ROUNDS * s@.share(worker as int) + FAULT_TABLE_SLACK,
        n <= FAULT_FRAMES,
{
    faults_for(s, worker) + FAULT_TABLE_SLACK
}

/// The header of every message of the benchmark.
pub open spec fn scaling_header() -> MessageHeader {
    MessageHeader {
        interface_id: SCALING_INTERFACE,
        method_id: SCALING_METHOD,
        flags: 0,
        txn_id: 0,
        correlation: 0,
    }
}

/// What a client calls with.
pub open spec fn request_view() -> MessageView {
    MessageView { header: scaling_header(), inline: seq![103u8, 111u8], handles: Seq::empty() }
}

/// What a server answers with.
pub open spec fn reply_view() -> MessageView {
    MessageView { header: scaling_header(), inline: Seq::empty(), handles: Seq::empty() }
}

/// What a client calls with: the two bytes `go`.
pub fn request() -> (m: Message)
    ensures
        m.wf(),
        m@ == request_view(),
{
    let mut m = Message::new(MessageHeader::new(SCALING_INTERFACE, SCALING_METHOD));
    let body: Vec<u8> = vec![103u8, 111u8];
    let _fits = m.set_inline(body.as_slice());
    assert(body@ =~= seq![103u8, 111u8]);
    m
}

/// What a server answers with.
pub fn reply() -> (m: Message)
    ensures
        m.wf(),
        m@ == reply_view(),
{
    Message::new(MessageHeader::new(SCALING_INTERFACE, SCALING_METHOD))
}

/// What a server does next.
pub enum ServeStep {
    /// It is finished, or was never set up.
    Stop,
    /// Waits for the first call.
    Receive(EndpointId),
    /// Answers and waits for the next call.
    ReplyReceive(EndpointId, Message),
    /// Answers the last call and stays runnable.
    ReplyAndContinue(EndpointId, Message),
}

/// What the server of `worker` does at its step `step`: it waits for the call
/// that primes it, then answers each call exactly once, and the last one
/// without waiting for more.
pub fn serve(s: &Scaling, worker: usize, step: usize) -> (r: ServeStep)
    requires
        s.wf(),
        worker < MAX_WORKERS,
    ensures
        ({
            let calls = ROUNDS * s@.share(worker as int) + 1;
            match s@.server[worker as int] {
                None => r is Stop,
                Some(end) => if step == 0 {
                    r == ServeStep::Receive(end)
                } else if step < calls {
                    r matches ServeStep::ReplyReceive(e, m) && e == end && m.wf() && m@
                        == reply_view()
                } else if step == calls {
                    r matches ServeStep::ReplyAndContinue(e, m) && e == end && m.wf() && m@
                        == reply_view()
                } else {
                    r is Stop
                },
            }
        }),
{
    let calls: usize = rounds_for(s, worker) + 1;
    match s.server[worker] {
        None => ServeStep::Stop,
        Some(end) => if step == 0 {
            ServeStep::Receive(end)
        } else if step < calls {
            ServeStep::ReplyReceive(end, reply())
        } else if step == calls {
            ServeStep::ReplyAndContinue(end, reply())
        } else {
            ServeStep::Stop
        },
    }
}

/// The client end of `worker`, if it was set up.
pub fn client_end(s: &Scaling, worker: usize) -> (r: Option<EndpointId>)
    requires
        s.wf(),
    ensures
        r == if worker < MAX_WORKERS {
            s@.client[worker as int]
        } else {
            None
        },
{
    if worker >= MAX_WORKERS {
        return None;
    }
    s.client[worker]
}

/// What a client does about a phase.
#[derive(Clone, Copy, PartialEq, Eq, Debug, Structural)]
pub enum ClientTurn {
    /// It has not begun.
    Wait,
    /// It is for fewer workers: report and go on.
    SitOut,
    /// Do this work and report.
    Work(PhaseKind),
}

/// What the client of `worker`, which has come to phase `phase`, does about it.
pub fn client(s: &Scaling, worker: usize, phase: usize) -> (r: ClientTurn)
    ensures
        r == if s@.phase != Some(phase) {
            ClientTurn::Wait
        } else if worker < s@.active {
            ClientTurn::Work(s@.kind(phase as int))
        } else {
            ClientTurn::SitOut
        },
{
    match s.phase {
        Some(p) => if p != phase {
            ClientTurn::Wait
        } else if worker < s.active {
            ClientTurn::Work(kind_of(s, phase))
        } else {
            ClientTurn::SitOut
        },
        None => ClientTurn::Wait,
    }
}

/// What a worker did in a phase.
#[derive(Clone, Copy, PartialEq, Eq, Debug, Structural)]
pub struct Share {
    pub started: u64,
    pub ended: u64,
    pub done: u64,
}

/// A worker has finished a phase, having done `work` in it if it took part.
pub fn client_report(s: &mut Scaling, worker: usize, work: Option<Share>)
    requires
        old(s).wf(),
        worker < MAX_WORKERS,
        old(s)@.reported < u64::MAX,
        work matches Some(w) ==> old(s)@.completed[worker as int] + w.done <= u64::MAX,
    ensures
        final(s).wf(),
        ({
            let v = ScalingView { reported: (old(s)@.reported + 1) as u64, ..old(s)@ };
            let w = worker as int;
            final(s)@ == match work {
                Some(share) => ScalingView {
                    started_at: v.started_at.update(w, share.started),
                    ended_at: v.ended_at.update(w, share.ended),
                    completed: v.completed.update(w, (v.completed[w] + share.done) as u64),
                    ..v
                },
                None => v,
            }
        }),
{
    if let Some(share) = work {
        s.started_at[worker] = share.started;
        s.ended_at[worker] = share.ended;
        s.completed[worker] = s.completed[worker] + share.done;
    }
    s.reported = s.reported + 1;
}

/// Where the page `page` of the fill round `round` is.
pub open spec fn page_address(round: int, page: int) -> int {
    FAULT_BASE + (round * FAULT_ROUNDS + page) * FRAME_SIZE
}

/// The next page a worker fills in round `round`, having filled `filled`, or
/// `None` when the round is over.
pub fn fault_loop(round: usize, filled: usize) -> (r: Option<u64>)
    requires
        round < MAX_WORKERS,
    ensures
        match r {
            Some(at) => filled < FAULT_ROUNDS && at == page_address(round as int, filled as int),
            None => filled >= FAULT_ROUNDS,
        },
{
    if filled >= FAULT_ROUNDS {
        return None;
    }
    assert(round * FAULT_ROUNDS <= MAX_WORKERS * FAULT_ROUNDS) by (nonlinear_arith)
        requires
            round <= MAX_WORKERS,
    ;
    Some(FAULT_BASE + (round as u64 * FAULT_ROUNDS as u64 + filled as u64) * FRAME_SIZE)
}

/// Begins phase `phase` and says how many workers take part.
pub fn begin_phase(s: &mut Scaling, phase: usize) -> (active: usize)
    requires
        old(s).wf(),
    ensures
        final(s).wf(),
        active == old(s)@.active_in(phase as int),
        final(s)@ == (ScalingView { phase: Some(phase), active, reported: 0, ..old(s)@ }),
{
    let active: usize = active_in(s, phase);
    s.active = active;
    s.reported = 0;
    s.phase = Some(phase);
    active
}

/// Whether every worker has finished the phase.
pub fn all_reported(s: &Scaling) -> (b: bool)
    ensures
        b == (s@.reported >= s@.workers),
{
    s.reported >= s.workers as u64
}

/// Ends phase `phase`, during which the count of waits for the machine lock
/// went from `before` to `after`.
pub fn end_phase(s: &mut Scaling, phase: usize, before: u64, after: u64) -> (p: Phase)
    requires
        old(s).wf(),
        phase < MAX_PHASES,
    ensures
        final(s).wf(),
        final(s)@ == (ScalingView {
            contended: old(s)@.contended.update(phase as int, less(after, before)),
            ..old(s)@
        }),
        ({
            let active = old(s)@.active_in(phase as int);
            p == Phase {
                active: active as usize,
                kind: old(s)@.kind(phase as int),
                window: less(
                    latest(old(s)@.ended_at, active),
                    earliest(old(s)@.started_at, active),
                ),
                contended: less(after, before),
            }
        }),
{
    let active: usize = active_in(s, phase);
    let waits: u64 = subtract(after, before);
    s.contended[phase] = waits;
    let mut first: u64 = u64::MAX;
    let mut last: u64 = 0;
    let mut w: usize = 0;
    while w < active
        invariant
            s.wf(),
            active <= MAX_WORKERS,
            w <= active,
            first == earliest(s@.started_at, w as int),
            last == latest(s@.ended_at, w as int),
        decreases active - w,
    {
        if s.started_at[w] < first {
            first = s.started_at[w];
        }
        if s.ended_at[w] > last {
            last = s.ended_at[w];
        }
        w += 1;
    }
    Phase { active, kind: kind_of(s, phase), window: subtract(last, first), contended: waits }
}

/// Ends the run, during which the count of wakeups that crossed a CPU went from
/// `before` to `after`.
pub fn end_run(s: &mut Scaling, before: u64, after: u64)
    requires
        old(s).wf(),
    ensures
        final(s).wf(),
        final(s)@ == (ScalingView { crossings: less(after, before), ..old(s)@ }),
{
    s.crossings = subtract(after, before);
}

/// The predicate of the phase of `kind` with one worker.
pub open spec fn alone(kind: PhaseKind) -> spec_fn(Phase) -> bool {
    |p: Phase| p.kind == kind && p.active == 1
}

/// What one worker alone took for `kind`, or 0.
pub open spec fn baseline(phases: Seq<Phase>, kind: PhaseKind) -> u64 {
    let at = slots::first(phases, alone(kind));
    if at < phases.len() {
        phases[at].window
    } else {
        0
    }
}

fn baseline_of(phases: &[Phase], kind: PhaseKind) -> (w: u64)
    ensures
        w == baseline(phases@, kind),
{
    let mut i: usize = 0;
    while i < phases.len()
        invariant
            i <= phases@.len(),
            forall|j: int| 0 <= j < i ==> !alone(kind)(#[trigger] phases@[j]),
        decreases phases@.len() - i,
    {
        if phases[i].kind == kind && phases[i].active == 1 {
            proof {
                slots::lemma_first_is(phases@, alone(kind), i as int);
            }
            return phases[i].window;
        }
        i += 1;
    }
    proof {
        slots::lemma_first_is(phases@, alone(kind), i as int);
    }
    0
}

/// The efficiency of `p`, in percent of the baseline of its kind: what one
/// worker alone took, divided by what this phase took. 0 where either was not
/// measured.
pub open spec fn percent(phases: Seq<Phase>, p: Phase) -> u64 {
    let base = baseline(phases, p.kind);
    if p.window > 0 && base > 0 {
        ((if base * 100 > u64::MAX {
            u64::MAX as int
        } else {
            base * 100
        }) / p.window as int) as u64
    } else {
        0
    }
}

/// The efficiency of each phase, in percent, for as many phases as there can
/// be.
pub fn efficiency(phases: &[Phase]) -> (out: Vec<u64>)
    ensures
        out@.len() == MAX_PHASES,
        forall|i: int|
            0 <= i < MAX_PHASES ==> #[trigger] out@[i] == if i < phases@.len() {
                percent(phases@, phases@[i])
            } else {
                0
            },
{
    let mut out: Vec<u64> = Vec::new();
    while out.len() < MAX_PHASES
        invariant
            out@.len() <= MAX_PHASES,
            forall|i: int|
                0 <= i < out@.len() ==> #[trigger] out@[i] == if i < phases@.len() {
                    percent(phases@, phases@[i])
                } else {
                    0
                },
        decreases MAX_PHASES - out@.len(),
    {
        let i: usize = out.len();
        let mut value: u64 = 0;
        if i < phases.len() {
            let base: u64 = baseline_of(phases, phases[i].kind);
            if phases[i].window > 0 && base > 0 {
                let scaled: u64 = if base > u64::MAX / 100 {
                    u64::MAX
                } else {
                    base * 100
                };
                value = scaled / phases[i].window;
            }
        }
        out.push(value);
    }
    out
}

/// Whether every worker has done all its work.
pub fn complete(s: &Scaling) -> (b: bool)
    requires
        s.wf(),
    ensures
        b == s@.all_done(),
{
    if s.workers == 0 {
        return false;
    }
    let mut w: usize = 0;
    while w < s.workers
        invariant
            s.wf(),
            s@.workers > 0,
            w <= s@.workers,
            s@.workers == s.workers,
            forall|k: int| 0 <= k < w ==> #[trigger] s@.completed[k] == s@.owes(k),
        decreases s.workers - w,
    {
        let owed: u64 = (rounds_for(s, w) + faults_for(s, w)) as u64;
        assert(owed == s@.owes(w as int)) by {
            let n = s@.share(w as int);
            assert(ROUNDS * n + FAULT_ROUNDS * n == (ROUNDS + FAULT_ROUNDS) * n);
        }
        if s.completed[w] != owed {
            assert(s@.completed[w as int] != s@.owes(w as int));
            return false;
        }
        w += 1;
    }
    true
}

/// How much work the workers still owe between them.
pub fn owed(s: &Scaling) -> (n: u64)
    requires
        s.wf(),
    ensures
        n == s@.shortfall(s@.workers as int),
{
    let mut n: u64 = 0;
    let mut w: usize = 0;
    while w < s.workers
        invariant
            s.wf(),
            w <= s@.workers,
            s@.workers == s.workers,
            n == s@.shortfall(w as int),
            n <= w * 1848,
        decreases s.workers - w,
    {
        let want: u64 = (rounds_for(s, w) + faults_for(s, w)) as u64;
        assert(want == s@.owes(w as int)) by {
            let k = s@.share(w as int);
            assert(ROUNDS * k + FAULT_ROUNDS * k == (ROUNDS + FAULT_ROUNDS) * k);
        }
        n = n + subtract(want, s.completed[w]);
        w += 1;
    }
    n
}

/// The claim this boot has earned, if it has: the work was all done, and no
/// wakeup crossed a CPU, so each pair was on one.
pub fn report_shape(s: &Scaling) -> (claim: Option<&'static str>)
    requires
        s.wf(),
    ensures
        claim == if s@.all_done() && s@.crossings == 0 {
            Some(CLAIM_SCALING_REPLICATED)
        } else {
            None
        },
{
    if complete(s) && s.crossings == 0 {
        Some(CLAIM_SCALING_REPLICATED)
    } else {
        None
    }
}

/// How many of the first `n` phases of one kind `worker` takes part in.
pub open spec fn taken_part(v: ScalingView, worker: int, n: int) -> int
    decreases n,
{
    if n <= 0 {
        0
    } else {
        taken_part(v, worker, n - 1) + if worker < v.active_in(n - 1) {
            1int
        } else {
            0int
        }
    }
}

/// A server answers exactly as many calls as its client makes: the share a
/// worker is reckoned is the number of phases it takes part in.
pub proof fn law_every_call_has_an_answer(v: ScalingView, worker: int)
    requires
        v.wf(),
        0 <= worker < v.workers,
    ensures
        taken_part(v, worker, v.workers as int) == v.share(worker),
{
    lemma_taken_part(v, worker, v.workers as int);
}

proof fn lemma_taken_part(v: ScalingView, worker: int, n: int)
    requires
        v.wf(),
        0 <= worker < v.workers,
        0 <= n <= v.workers,
    ensures
        taken_part(v, worker, n) == if n > worker {
            n - worker
        } else {
            0
        },
    decreases n,
{
    if n > 0 {
        lemma_taken_part(v, worker, n - 1);
        vstd::arithmetic::div_mod::lemma_small_mod((n - 1) as nat, v.workers as nat);
    }
}

/// Every page of every round is at an address of its own, inside the region set
/// aside for them: none is filled twice.
pub proof fn law_every_fill_is_fresh(r: int, p: int, r2: int, p2: int)
    requires
        0 <= r < MAX_WORKERS,
        0 <= r2 < MAX_WORKERS,
        0 <= p < FAULT_ROUNDS,
        0 <= p2 < FAULT_ROUNDS,
    ensures
        FAULT_BASE <= page_address(r, p),
        page_address(r, p) + FRAME_SIZE <= FAULT_BASE + FAULT_FRAMES * FRAME_SIZE,
        page_address(r, p) == page_address(r2, p2) ==> r == r2 && p == p2,
{
}

/// Efficiency is against one worker of the same kind: alone, it is exactly one
/// hundred percent.
pub proof fn law_alone_is_fully_efficient(phases: Seq<Phase>, i: int)
    requires
        0 <= i < phases.len(),
        i == slots::first(phases, alone(phases[i].kind)),
        0 < phases[i].window <= u64::MAX / 100,
    ensures
        percent(phases, phases[i]) == 100,
{
    let w = phases[i].window as int;
    assert(w * 100 / w == 100) by (nonlinear_arith)
        requires
            w > 0,
    ;
}

/// The window of a phase is from the first start to the last end of those who
/// took part.
pub proof fn law_a_window_spans_everyone(s: Seq<u64>, n: int, i: int)
    requires
        0 <= i < n <= s.len(),
    ensures
        earliest(s, n) <= s[i] <= latest(s, n),
        s.contains(earliest(s, n)) || earliest(s, n) == u64::MAX,
        s.contains(latest(s, n)) || latest(s, n) == 0,
    decreases n,
{
    if i < n - 1 {
        law_a_window_spans_everyone(s, n - 1, i);
    } else if n > 1 {
        law_a_window_spans_everyone(s, n - 1, 0);
    }
    assert(s.contains(s[n - 1]));
    assert(earliest(s, 0) == u64::MAX && latest(s, 0) == 0);
}

/// What is owed is what was asked and not done: each worker owes its rounds of
/// both kinds for each phase it takes part in, and all is done when nobody owes.
pub proof fn law_all_is_done_when_nobody_owes(v: ScalingView, n: int, a: u64, b: u64)
    requires
        v.wf(),
        0 < n <= v.workers,
    ensures
        v.owes(n - 1) == (ROUNDS + FAULT_ROUNDS) * (v.workers - (n - 1)),
        v.owes(v.workers as int) == 0,
        v.all_done() ==> v.completed[n - 1] == v.owes(n - 1),
        v.completed[n - 1] as int >= v.owes(n - 1) ==> v.shortfall(n) == v.shortfall(n - 1),
        v.owes(n - 1) <= u64::MAX && v.completed[n - 1] < v.owes(n - 1) ==> v.shortfall(n)
            == v.shortfall(n - 1) + (v.owes(n - 1) - v.completed[n - 1]),
        v.shortfall(0) == 0,
        a >= b ==> less(a, b) == a - b,
        a < b ==> less(a, b) == 0,
{
    assert((ROUNDS + FAULT_ROUNDS) * 0 == 0);
    let k = v.workers - (n - 1);
    assert(0 <= (ROUNDS + FAULT_ROUNDS) * k <= u64::MAX) by (nonlinear_arith)
        requires
            0 <= k <= MAX_WORKERS,
            ROUNDS + FAULT_ROUNDS <= 0x1_0000_0000,
            ROUNDS + FAULT_ROUNDS >= 0,
            MAX_WORKERS <= 0x1_0000,
    ;
}

/// The first phases measure calls and the rest faults, and each takes one worker
/// more than the one before, from one up to all of them.
pub proof fn law_phases_add_a_worker_at_a_time(v: ScalingView, phase: int)
    requires
        v.wf(),
        0 <= phase < 2 * v.workers,
    ensures
        phase < v.workers ==> v.kind(phase) == PhaseKind::Ipc && v.active_in(phase) == phase + 1,
        phase >= v.workers ==> v.kind(phase) == PhaseKind::Fault && v.active_in(phase) == phase
            - v.workers + 1,
        1 <= v.active_in(phase) <= v.workers,
        phase < v.workers ==> v.share(phase) == v.workers - phase,
{
    let w = v.workers as int;
    if phase < w {
        vstd::arithmetic::div_mod::lemma_small_mod(phase as nat, w as nat);
    } else {
        vstd::arithmetic::div_mod::lemma_small_mod((phase - w) as nat, w as nat);
        vstd::arithmetic::div_mod::lemma_mod_add_multiples_vanish(phase - w, w);
    }
}

/// Efficiency is how much of one worker's window the phase's window is, in
/// hundredths; with nothing to compare it is nothing.
pub proof fn law_efficiency_is_against_one_worker(phases: Seq<Phase>, p: Phase, i: int)
    requires
        0 <= i < phases.len(),
        phases[i].kind == p.kind,
        phases[i].active == 1,
        forall|k: int| 0 <= k < i ==> (#[trigger] phases[k]).kind != p.kind || phases[k].active != 1,
        phases[i].window <= u64::MAX / 100,
    ensures
        baseline(phases, p.kind) == phases[i].window,
        p.window > 0 ==> percent(phases, p) == phases[i].window * 100 / p.window as int,
        p.window == 0 ==> percent(phases, p) == 0,
{
    assert forall|k: int| 0 <= k < i implies !alone(p.kind)(#[trigger] phases[k]) by {
        assert(phases[k].kind != p.kind || phases[k].active != 1);
    }
    slots::lemma_first_is(phases, alone(p.kind), i);
    if p.window > 0 {
        let b = phases[i].window as int * 100;
        let w = p.window as int;
        assert(0 <= b / w <= b) by (nonlinear_arith)
            requires
                b >= 0,
                w >= 1,
        ;
        if b == 0 {
            vstd::arithmetic::div_mod::lemma_div_basics(w);
        }
    }
}

/// A request asks with its two bytes and a reply answers with none; neither
/// carries a handle.
pub proof fn law_a_request_and_its_reply()
    ensures
        request_view().inline == seq![103u8, 111u8],
        request_view().handles.len() == 0,
        request_view().header.interface_id == SCALING_INTERFACE,
        request_view().header.method_id == SCALING_METHOD,
        reply_view().inline.len() == 0,
        reply_view().handles.len() == 0,
        reply_view().header.interface_id == SCALING_INTERFACE,
        reply_view().header.method_id == SCALING_METHOD,
{
}

/// Every worker has a channel of its own: its client is one end and its server
/// the other, of a channel that was free and is open and empty.
pub proof fn law_every_worker_has_a_channel(t: ChannelsView, n: int, workers: usize)
    requires
        n > 0,
    ensures
        opened(t, n) == opened(t, n - 1).update(
            channel_vacancy(opened(t, n - 1)),
            Some(ChannelView::fresh()),
        ),
        opened(t, 0) == t,
        opened_end(t, n).side == 0,
        opened_end(t, n).channel == channel_vacancy(opened(t, n)) as usize,
        opened_end(t, n).peer().side == 1,
        opened_end(t, n).peer().channel == opened_end(t, n).channel,
        at_most_all(workers) <= workers,
        at_most_all(workers) <= MAX_WORKERS,
        workers <= MAX_WORKERS ==> at_most_all(workers) == workers,
        workers > MAX_WORKERS ==> at_most_all(workers) == MAX_WORKERS,
{
}

/// A run that opens has a client and a server end for each worker it wanted, and
/// one that does not leaves the number of workers as it was.
pub proof fn law_a_run_opens_for_everyone_or_not(
    v: ExecView,
    w: ExecView,
    a: ScalingView,
    b: ScalingView,
    wanted: int,
    made: int,
    r: bool,
    i: int,
)
    requires
        a.wf(),
        0 <= wanted <= MAX_WORKERS,
        opening(v, w, a, b, wanted, made, r),
        0 <= i < MAX_WORKERS,
    ensures
        r ==> b.workers == wanted && wanted > 0,
        r && i < wanted ==> (b.client[i] matches Some(c) && (b.server[i] matches Some(s) && c.side
            == 0 && s.side == 1 && s.channel == c.channel)),
        !r && wanted > 0 ==> b.workers == a.workers,
        b.completed == a.completed && b.phase == a.phase && b.reported == a.reported,
        w.cpus == v.cpus,
{
}

} // verus!
