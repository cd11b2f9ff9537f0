//! The lock over the machine-wide tables: re-entrant per CPU, and put down for
//! as long as a thread is parked.
//!
//! Taking it is one attempt at a time, so waiting for another CPU is a loop of
//! the caller's; a wait is counted once, at the attempt that began it.
use vstd::prelude::*;
use crate::config::MAX_CPUS;

verus! {

/// The owner word of a lock nobody holds. It is no CPU's index.
const NOBODY: u32 = 8;

/// The claim a boot in which no thread parked with the lock held may make.
pub const CLAIM_RELEASED_AT_PARK: &'static str = "exec.lock-released-at-park";

/// A counter that has counted one more.
pub open spec fn counted(n: u64) -> u64 {
    if n == u64::MAX {
        0
    } else {
        (n + 1) as u64
    }
}

fn count_one(n: u64) -> (m: u64)
    ensures
        m == counted(n),
{
    if n == u64::MAX {
        0
    } else {
        n + 1
    }
}

/// The lock's state.
pub struct MachineLock {
    owner: u32,
    depth: Vec<u64>,
    parked_holding: u64,
    contended: u64,
}

/// What a [`MachineLock`] holds.
#[verifier::ext_equal]
pub struct LockView {
    /// The CPU that has it.
    pub owner: Option<u32>,
    /// How deep each CPU is.
    pub depth: Seq<u64>,
    /// Parks that happened with the lock still held.
    pub parked_holding: u64,
    /// Waits for another CPU.
    pub contended: u64,
}

impl LockView {
    /// The owner is the one CPU with a depth.
    pub open spec fn wf(self) -> bool {
        &&& self.depth.len() == MAX_CPUS
        &&& self.owner matches Some(c) ==> c < MAX_CPUS && self.depth[c as int] > 0
        &&& forall|i: int|
            0 <= i < MAX_CPUS && (#[trigger] self.depth[i]) > 0 ==> self.owner == Some(i as u32)
    }

    /// Whether `cpu` holds the lock.
    pub open spec fn held(self, cpu: u32) -> bool {
        self.depth[cpu as int] > 0
    }

    /// Whether an attempt by `cpu` succeeds: it has the lock, or nobody does.
    pub open spec fn open_to(self, cpu: u32) -> bool {
        self.held(cpu) || self.owner is None
    }

    /// With `cpu` at depth `n`.
    pub open spec fn at_depth(self, cpu: u32, n: u64) -> LockView {
        LockView {
            owner: if n > 0 {
                Some(cpu)
            } else {
                None
            },
            depth: self.depth.update(cpu as int, n),
            ..self
        }
    }

    /// With one wait more.
    pub open spec fn waited(self) -> LockView {
        LockView { contended: counted(self.contended), ..self }
    }
}

impl View for MachineLock {
    type V = LockView;

    closed spec fn view(&self) -> LockView {
        LockView {
            owner: if self.owner == NOBODY {
                None
            } else {
                Some(self.owner)
            },
            depth: self.depth@,
            parked_holding: self.parked_holding,
            contended: self.contended,
        }
    }
}

/// A live hold on the machine tables. Giving it to [`let_go`] releases one
/// level.
pub struct Hold {
    cpu: u32,
}

impl View for Hold {
    type V = u32;

    closed spec fn view(&self) -> u32 {
        self.cpu
    }
}

impl MachineLock {
    /// The lock's invariant.
    pub open spec fn wf(&self) -> bool {
        self@.wf()
    }

    /// A lock nobody holds.
    pub fn new() -> (l: MachineLock)
        ensures
            l.wf(),
            l@ == (LockView {
                owner: None,
                depth: Seq::new(MAX_CPUS as nat, |i: int| 0u64),
                parked_holding: 0,
                contended: 0,
            }),
    {
        let l = MachineLock {
            owner: NOBODY,
            depth: vec![0u64; MAX_CPUS],
            parked_holding: 0,
            contended: 0,
        };
        assert(l@.depth =~= Seq::new(MAX_CPUS as nat, |i: int| 0u64));
        l
    }
}

/// How deep `cpu` is: 0 for a number that is no CPU's.
fn depth_of(lock: &MachineLock, cpu: u32) -> (n: u64)
    requires
        lock.wf(),
    ensures
        n == if cpu < MAX_CPUS {
            lock@.depth[cpu as int]
        } else {
            0
        },
{
    if cpu as usize >= MAX_CPUS {
        return 0;
    }
    lock.depth[cpu as usize]
}

/// One attempt at the owner word.
fn try_take(lock: &mut MachineLock, cpu: u32) -> (took: bool)
    requires
        cpu < MAX_CPUS,
    ensures
        took == (old(lock)@.owner is None),
        final(lock)@ == (if took {
            LockView { owner: Some(cpu), ..old(lock)@ }
        } else {
            old(lock)@
        }),
{
    if lock.owner == NOBODY {
        lock.owner = cpu;
        true
    } else {
        false
    }
}

/// Takes a hold, or counts the beginning of a wait: another CPU has the lock,
/// and [`hold_again`] is how to keep trying.
pub fn hold(lock: &mut MachineLock, cpu: u32) -> (r: Option<Hold>)
    requires
        old(lock).wf(),
        cpu < MAX_CPUS,
        old(lock)@.depth[cpu as int] < u64::MAX,
    ensures
        final(lock).wf(),
        r is Some == old(lock)@.open_to(cpu),
        match r {
            Some(h) => h@ == cpu && final(lock)@ == old(lock)@.at_depth(
                cpu,
                (old(lock)@.depth[cpu as int] + 1) as u64,
            ),
            None => final(lock)@ == old(lock)@.waited(),
        },
{
    match hold_again(lock, cpu) {
        Some(h) => Some(h),
        None => {
            lock.contended = count_one(lock.contended);
            None
        },
    }
}

/// Takes a hold if nobody else has the lock by now. Counts nothing.
pub fn hold_again(lock: &mut MachineLock, cpu: u32) -> (r: Option<Hold>)
    requires
        old(lock).wf(),
        cpu < MAX_CPUS,
        old(lock)@.depth[cpu as int] < u64::MAX,
    ensures
        final(lock).wf(),
        r is Some == old(lock)@.open_to(cpu),
        match r {
            Some(h) => h@ == cpu && final(lock)@ == old(lock)@.at_depth(
                cpu,
                (old(lock)@.depth[cpu as int] + 1) as u64,
            ),
            None => final(lock)@ == old(lock)@,
        },
{
    let ghost v = lock@;
    let depth: u64 = depth_of(lock, cpu);
    if depth == 0 && !try_take(lock, cpu) {
        return None;
    }
    lock.depth[cpu as usize] = depth + 1;
    assert(lock@ =~= v.at_depth(cpu, (depth + 1) as u64));
    Some(Hold { cpu })
}

/// Releases one level of `held`, and the lock with the last one.
pub fn let_go(lock: &mut MachineLock, held: Hold)
    requires
        old(lock).wf(),
        held@ < MAX_CPUS,
        old(lock)@.held(held@),
    ensures
        final(lock).wf(),
        final(lock)@ == old(lock)@.at_depth(
            held@,
            (old(lock)@.depth[held@ as int] - 1) as u64,
        ),
{
    let ghost v = lock@;
    let depth: u64 = depth_of(lock, held.cpu) - 1;
    lock.depth[held.cpu as usize] = depth;
    if depth == 0 {
        lock.owner = NOBODY;
    }
    assert(lock@ =~= v.at_depth(held@, depth));
}

/// The CPU that has the lock, or `None`.
pub fn owner(lock: &MachineLock) -> (r: Option<u32>)
    ensures
        r == lock@.owner,
{
    if lock.owner == NOBODY {
        None
    } else {
        Some(lock.owner)
    }
}

/// Whether `cpu` holds the lock.
pub fn held_here(lock: &MachineLock, cpu: u32) -> (b: bool)
    requires
        lock.wf(),
    ensures
        b == (cpu < MAX_CPUS && lock@.held(cpu)),
{
    depth_of(lock, cpu) > 0
}

/// Puts the whole hold of `cpu` down before its thread parks, and returns how
/// deep it was.
pub fn park(lock: &mut MachineLock, cpu: u32) -> (depth: u64)
    requires
        old(lock).wf(),
        cpu < MAX_CPUS,
    ensures
        final(lock).wf(),
        depth == old(lock)@.depth[cpu as int],
        final(lock)@ == (if depth > 0 {
            old(lock)@.at_depth(cpu, 0)
        } else {
            old(lock)@
        }),
{
    let ghost v = lock@;
    let depth: u64 = depth_of(lock, cpu);
    if depth > 0 {
        lock.depth[cpu as usize] = 0;
        lock.owner = NOBODY;
        assert(lock@ =~= v.at_depth(cpu, 0));
    }
    depth
}

/// Picks a hold of `depth` levels back up where the thread runs now, or counts
/// the beginning of a wait for whoever has the lock. [`park_resume_again`] is
/// how to keep trying.
pub fn park_resume(lock: &mut MachineLock, cpu: u32, depth: u64) -> (b: bool)
    requires
        old(lock).wf(),
        cpu < MAX_CPUS,
        !old(lock)@.held(cpu),
    ensures
        final(lock).wf(),
        b == (depth == 0 || old(lock)@.owner is None),
        final(lock)@ == (if depth == 0 {
            old(lock)@
        } else if b {
            old(lock)@.at_depth(cpu, depth)
        } else {
            old(lock)@.waited()
        }),
{
    if park_resume_again(lock, cpu, depth) {
        return true;
    }
    lock.contended = count_one(lock.contended);
    false
}

/// Picks a hold back up if nobody has the lock by now. Counts nothing.
pub fn park_resume_again(lock: &mut MachineLock, cpu: u32, depth: u64) -> (b: bool)
    requires
        old(lock).wf(),
        cpu < MAX_CPUS,
        !old(lock)@.held(cpu),
    ensures
        final(lock).wf(),
        b == (depth == 0 || old(lock)@.owner is None),
        final(lock)@ == (if depth > 0 && b {
            old(lock)@.at_depth(cpu, depth)
        } else {
            old(lock)@
        }),
{
    let ghost v = lock@;
    if depth == 0 {
        return true;
    }
    if !try_take(lock, cpu) {
        return false;
    }
    lock.depth[cpu as usize] = depth;
    assert(lock@ =~= v.at_depth(cpu, depth));
    true
}

/// Records a park that happened while `cpu` held the lock: one that did not go
/// through [`park`].
pub fn assert_released(lock: &mut MachineLock, cpu: u32)
    requires
        old(lock).wf(),
    ensures
        final(lock).wf(),
        final(lock)@ == (if cpu < MAX_CPUS && old(lock)@.held(cpu) {
            LockView { parked_holding: counted(old(lock)@.parked_holding), ..old(lock)@ }
        } else {
            old(lock)@
        }),
{
    if held_here(lock, cpu) {
        lock.parked_holding = count_one(lock.parked_holding);
    }
}

/// Parks that happened with the lock held. Zero, or there is a bug.
pub fn parked_holding(lock: &MachineLock) -> (n: u64)
    ensures
        n == lock@.parked_holding,
{
    lock.parked_holding
}

/// Waits for another CPU.
pub fn contended(lock: &MachineLock) -> (n: u64)
    ensures
        n == lock@.contended,
{
    lock.contended
}

/// The claim this boot has earned, if it has.
pub fn report(lock: &MachineLock) -> (claim: Option<&'static str>)
    ensures
        claim == if lock@.parked_holding == 0 {
            Some(CLAIM_RELEASED_AT_PARK)
        } else {
            None
        },
{
    if lock.parked_holding == 0 {
        Some(CLAIM_RELEASED_AT_PARK)
    } else {
        None
    }
}

/// Two CPUs never hold the lock at once.
pub proof fn law_exclusion(v: LockView, a: u32, b: u32)
    requires
        v.wf(),
        a < MAX_CPUS,
        b < MAX_CPUS,
        v.held(a),
        v.held(b),
    ensures
        a == b,
{
    assert(v.depth[a as int] > 0 && v.depth[b as int] > 0);
}

/// A nested hold costs nothing and gives nothing away: the CPU that has the
/// lock is always let in, and letting the inner hold go leaves the lock as it
/// was.
pub proof fn law_holds_nest(v: LockView, cpu: u32)
    requires
        v.wf(),
        cpu < MAX_CPUS,
        v.held(cpu),
        v.depth[cpu as int] < u64::MAX,
    ensures
        v.open_to(cpu),
        ({
            let inner = v.at_depth(cpu, (v.depth[cpu as int] + 1) as u64);
            inner.at_depth(cpu, (inner.depth[cpu as int] - 1) as u64) == v
        }),
{
    let inner = v.at_depth(cpu, (v.depth[cpu as int] + 1) as u64);
    assert(inner.at_depth(cpu, (inner.depth[cpu as int] - 1) as u64) =~= v);
}

/// While a thread is parked its CPU holds nothing, however deep it was, and
/// picking the hold back up restores the lock as it was.
pub proof fn law_park_puts_everything_down(v: LockView, cpu: u32)
    requires
        v.wf(),
        cpu < MAX_CPUS,
        v.held(cpu),
    ensures
        v.at_depth(cpu, 0).owner is None,
        !v.at_depth(cpu, 0).held(cpu),
        v.at_depth(cpu, 0).at_depth(cpu, v.depth[cpu as int]) == v,
{
    assert(v.at_depth(cpu, 0).at_depth(cpu, v.depth[cpu as int]) =~= v);
}

/// Holding at a depth makes that CPU the owner for as long as the depth is not
/// zero, and touches nobody else's depth and no count.
pub proof fn law_a_hold_is_its_cpus(v: LockView, cpu: u32, n: u64, other: int)
    requires
        v.wf(),
        cpu < MAX_CPUS,
        0 <= other < MAX_CPUS,
        other != cpu,
    ensures
        v.at_depth(cpu, n).depth[cpu as int] == n,
        v.at_depth(cpu, n).depth[other] == v.depth[other],
        n > 0 ==> v.at_depth(cpu, n).owner == Some(cpu),
        n == 0 ==> v.at_depth(cpu, n).owner is None,
        v.at_depth(cpu, n).contended == v.contended,
        v.at_depth(cpu, n).parked_holding == v.parked_holding,
{
}

/// A CPU is let in while nobody owns the lock or it does itself, and not while
/// another does; being kept out is counted and changes nothing else.
pub proof fn law_the_lock_keeps_others_out(v: LockView, cpu: u32, other: u32)
    requires
        v.wf(),
        cpu < MAX_CPUS,
        other < MAX_CPUS,
        other != cpu,
    ensures
        v.owner is None ==> v.open_to(cpu),
        v.owner == Some(cpu) ==> v.open_to(cpu) && v.held(cpu),
        v.owner == Some(other) ==> !v.open_to(cpu) && !v.held(cpu),
        v.held(cpu) <==> v.depth[cpu as int] > 0,
        v.waited().owner == v.owner,
        v.waited().depth == v.depth,
        v.waited().parked_holding == v.parked_holding,
        v.contended < u64::MAX ==> v.waited().contended == v.contended + 1,
        v.contended == u64::MAX ==> v.waited().contended == 0,
{
}

} // verus!
