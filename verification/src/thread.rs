//! Threads as the scheduler and the executive see them: identity, state and
//! the few values a switch or a wait must carry. Registers, stacks and page
//! tables belong to whoever performs the switch.
use vstd::prelude::*;
use crate::object::ObjectId;

verus! {

/// A machine-wide thread identity. The CPU that minted it is in the high
/// eight bits, so the scheduler that owns the thread is found without a search
/// over every CPU.
#[derive(Clone, Copy, PartialEq, Eq, Hash, Debug, Structural)]
pub struct ThreadId(pub u64);

impl ThreadId {
    /// The raw value of the id no thread has.
    pub const UNASSIGNED: u64 = 0;

    /// The CPU that minted this id.
    pub open spec fn home(self) -> int {
        self.0 as int / 0x100_0000_0000_0000
    }

    /// The id no thread has.
    pub fn unassigned() -> (id: ThreadId)
        ensures
            id == ThreadId(Self::UNASSIGNED),
    {
        ThreadId(Self::UNASSIGNED)
    }

    /// The CPU that minted this id.
    pub fn cpu(self) -> (cpu: u32)
        ensures
            cpu == self.home(),
            cpu < 256,
    {
        (self.0 / 0x100_0000_0000_0000) as u32
    }
}

/// What a thread is doing.
#[derive(Clone, Copy, PartialEq, Eq, Debug, Structural)]
pub enum ThreadState {
    /// Runnable, waiting for a CPU.
    Ready,
    /// On a CPU.
    Running,
    /// Parked until something wakes it.
    Blocked,
    /// Finished; never runs again.
    Exited,
}

/// A thread's entry in a scheduler's table.
#[derive(Clone, Copy, PartialEq, Eq, Debug, Structural)]
pub struct Thread {
    pub id: ThreadId,
    pub state: ThreadState,
    /// Effective priority, which a synchronous call lends to its callee.
    pub priority: u8,
    /// The causal id the thread's work belongs to.
    pub correlation: u64,
    /// The process the thread belongs to, if any.
    pub process: Option<ObjectId>,
    /// When a bounded receive gives up, if it does.
    pub recv_deadline: Option<u64>,
    /// Where the kernel stack starts, where it ends, and the page-table root:
    /// carried for whoever performs the switch or frees the stack.
    pub kernel_stack_base: u64,
    pub kernel_stack_top: u64,
    pub space_root: Option<u64>,
}

/// The identity events are stamped with while a thread runs.
#[derive(Clone, Copy, PartialEq, Eq, Debug, Structural)]
pub struct TraceContext {
    pub thread_id: u64,
    pub process_id: u64,
    pub correlation: u64,
}

/// The identity stamped while the boot context runs.
pub open spec fn no_trace() -> TraceContext {
    TraceContext { thread_id: 0, process_id: 0, correlation: 0 }
}

/// The identity stamped while `thread` runs.
pub open spec fn trace_of(thread: Thread) -> TraceContext {
    TraceContext {
        thread_id: thread.id.0,
        process_id: match thread.process {
            Some(p) => p.0 as u64,
            None => 0,
        },
        correlation: thread.correlation,
    }
}

/// An id says which CPU minted it: what a CPU numbers below its share of the ids
/// comes home to that CPU.
pub proof fn law_an_id_comes_home(cpu: u8, number: u64)
    requires
        number < 0x100_0000_0000_0000,
    ensures
        ThreadId((cpu * 0x100_0000_0000_0000 + number) as u64).home() == cpu,
{
}

/// Events are stamped with who runs: the thread, its process and its cause, or
/// nobody.
pub proof fn law_events_are_stamped_with_who_runs(t: Thread)
    ensures
        trace_of(t).thread_id == t.id.0,
        t.process matches Some(p) ==> trace_of(t).process_id == p.0,
        t.process is None ==> trace_of(t).process_id == 0,
        trace_of(t).correlation == t.correlation,
        no_trace().thread_id == 0 && no_trace().process_id == 0 && no_trace().correlation == 0,
{
}

} // verus!
