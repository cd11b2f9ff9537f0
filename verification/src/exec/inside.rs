//! Every entry into a blocking operation is paired with one exit: a thread that
//! parks stays inside, and whatever ends its operation takes it out.
use vstd::prelude::*;
use crate::config::MAX_CPUS;
use crate::error::KError;
use crate::exec::messaging::{call_over, call_step, receive_step, resume_step, CallStep, PendingCall};
use crate::exec::ports::{drainers, port_wait_step, Step};
use crate::exec::power::{suspend_step, SuspendStep};
use crate::exec::replies::{reply_receive_step, reply_step, scan_step};
use crate::exec::waiting::wait_step;
use crate::exec::ExecView;
use crate::ipc::{object_at, EndpointId, Message, MessageView, SIGNAL_MESSAGE};
use crate::occupancy::{OccupancyView, Site};
use crate::port::{PortEvent, PortId};
use crate::sched::Switch;
use crate::thread::ThreadId;
use crate::wait::Waiter;

verus! {

/// `w` follows from `v` by an operation begun: inside if it parked, and in and
/// out again if it is over.
pub open spec fn begun(
    v: OccupancyView,
    w: OccupancyView,
    cpu: u32,
    site: Site,
    parked: bool,
) -> bool {
    resumed(v.with_entry(cpu, site.number()), w, cpu, site, parked)
}

/// `w` follows from `v` by an operation gone on with: inside still if it parked,
/// and out if it is over.
pub open spec fn resumed(
    v: OccupancyView,
    w: OccupancyView,
    cpu: u32,
    site: Site,
    parked: bool,
) -> bool {
    w == if parked {
        v
    } else {
        v.with_exit(cpu, site.number())
    }
}

/// Waking threads moves nobody in or out.
proof fn lemma_woken_all_inside(v: ExecView, cpu: u32, ids: Seq<ThreadId>)
    ensures
        v.woken_all(cpu, ids).occupancy == v.occupancy,
    decreases ids.len(),
{
    if ids.len() > 0 {
        lemma_woken_all_inside(v, cpu, ids.drop_last());
    }
}

proof fn lemma_receivers_inside(
    v: ExecView,
    endpoints: Seq<EndpointId>,
    n: int,
    thread: Option<ThreadId>,
)
    ensures
        v.receivers_set(endpoints, n, thread).occupancy == v.occupancy,
    decreases n,
{
    if n > 0 {
        lemma_receivers_inside(v, endpoints, n - 1, thread);
    }
}

/// A receive, begun or gone on with, keeps its thread inside exactly while it is
/// parked. `site` is the operation the receive belongs to.
pub proof fn law_receive_is_paired(
    v: ExecView,
    w: ExecView,
    cpu: u32,
    on: EndpointId,
    site: Site,
    r: Step<Result<Message, KError>>,
)
    ensures
        receive_step(v.entered(cpu, site), w, cpu, on, site, r) ==> begun(
            v.occupancy,
            w.occupancy,
            cpu,
            site,
            r is Park,
        ),
        receive_step(v, w, cpu, on, site, r) ==> resumed(
            v.occupancy,
            w.occupancy,
            cpu,
            site,
            r is Park,
        ),
{
}

/// The same of a receive over several endpoints.
pub proof fn law_receive_any_is_paired(
    v: ExecView,
    w: ExecView,
    cpu: u32,
    endpoints: Seq<EndpointId>,
    deadline: Option<u64>,
    now: u64,
    r: Step<Result<(usize, Message), KError>>,
)
    ensures
        scan_step(v.entered(cpu, Site::ReceiveAny), w, cpu, endpoints, deadline, now, r) ==> begun(
            v.occupancy,
            w.occupancy,
            cpu,
            Site::ReceiveAny,
            r is Park,
        ),
        scan_step(v, w, cpu, endpoints, deadline, now, r) ==> resumed(
            v.occupancy,
            w.occupancy,
            cpu,
            Site::ReceiveAny,
            r is Park,
        ),
{
    let e = v.entered(cpu, Site::ReceiveAny);
    let n = endpoints.len() as int;
    lemma_receivers_inside(e.deadline_set(cpu, deadline), endpoints, n, e.running_id(cpu));
    lemma_receivers_inside(v.deadline_set(cpu, deadline), endpoints, n, v.running_id(cpu));
}

/// The same of a synchronous call, and of what finishes it.
pub proof fn law_call_is_paired(
    v: ExecView,
    w: ExecView,
    cpu: u32,
    from: EndpointId,
    m: MessageView,
    r: CallStep,
)
    requires
        call_step(v.entered(cpu, Site::Call), w, cpu, from, m, r),
    ensures
        begun(v.occupancy, w.occupancy, cpu, Site::Call, r is Parked),
{
    let e = v.entered(cpu, Site::Call);
    let txn = e.local(cpu).next_txn;
    let u = e.minted(cpu);
    let to = from.peer();
    let a = u.with_end(
        to,
        u.end(to)->0.enqueued(
            m.with_txn(txn).with_correlation(u.running(cpu)->0.correlation),
        ).with_receiver(None),
    ).caller_set(from, Some((u.running_id(cpu)->0, txn)));
    if let Some(o) = object_at(u.machine.channels, to) {
        lemma_woken_all_inside(a, cpu, drainers(a.machine.ports, o.0 as u64, SIGNAL_MESSAGE));
    }
}

/// A call that is finished leaves, whatever it comes away with.
pub proof fn law_finished_call_is_paired(
    v: ExecView,
    w: ExecView,
    cpu: u32,
    call: PendingCall,
    r: Result<Message, KError>,
)
    requires
        resume_step(v, w, cpu, call, r),
    ensures
        resumed(v.occupancy, w.occupancy, cpu, Site::Call, false),
{
    assert(call_over(v, cpu, call).occupancy == v.left(cpu, Site::Call).occupancy);
}

/// The same of a reply: the server is inside until it runs again.
pub proof fn law_reply_is_paired(
    v: ExecView,
    w: ExecView,
    cpu: u32,
    on: EndpointId,
    m: MessageView,
    r: Result<Option<Switch>, KError>,
)
    requires
        reply_step(v.entered(cpu, Site::Reply), w, cpu, on, m, r),
    ensures
        begun(
            v.occupancy,
            w.occupancy,
            cpu,
            Site::Reply,
            r matches Ok(s) && s is Some,
        ),
{
}

/// The same of a reply and receive in one.
pub proof fn law_reply_receive_is_paired(
    v: ExecView,
    w: ExecView,
    cpu: u32,
    on: EndpointId,
    m: MessageView,
    r: Step<Result<Message, KError>>,
)
    requires
        reply_receive_step(v.entered(cpu, Site::ReplyReceive), w, cpu, on, m, r),
    ensures
        begun(v.occupancy, w.occupancy, cpu, Site::ReplyReceive, r is Park),
{
}

/// The same of a wait on an address.
pub proof fn law_address_wait_is_paired(
    v: ExecView,
    w: ExecView,
    cpu: u32,
    waiter: Waiter,
    expected: u64,
    word: Result<u64, KError>,
    r: Result<Switch, KError>,
)
    requires
        wait_step(v.entered(cpu, Site::WaitOnAddress), w, cpu, waiter, expected, word, r),
    ensures
        begun(v.occupancy, w.occupancy, cpu, Site::WaitOnAddress, r is Ok),
{
}

/// The same of a commit to sleep.
pub proof fn law_suspend_is_paired(
    v: ExecView,
    w: ExecView,
    cpu: u32,
    snapshot: u64,
    r: SuspendStep,
)
    requires
        suspend_step(v.entered(cpu, Site::SystemSuspend), w, cpu, snapshot, r),
    ensures
        begun(v.occupancy, w.occupancy, cpu, Site::SystemSuspend, r is Asleep),
{
}

/// The same of a wait on a port.
pub proof fn law_port_wait_is_paired(
    v: ExecView,
    w: ExecView,
    cpu: u32,
    port: PortId,
    r: Step<Result<PortEvent, KError>>,
)
    ensures
        port_wait_step(v.entered(cpu, Site::PortWait), w, cpu, port, r) ==> begun(
            v.occupancy,
            w.occupancy,
            cpu,
            Site::PortWait,
            r is Park,
        ),
        port_wait_step(v, w, cpu, port, r) ==> resumed(
            v.occupancy,
            w.occupancy,
            cpu,
            Site::PortWait,
            r is Park,
        ),
{
}

/// What was entered and is over has left: nobody more is inside, in any
/// operation, than before.
pub proof fn law_an_operation_over_is_left(
    v: OccupancyView,
    w: OccupancyView,
    cpu: u32,
    site: Site,
    other: Site,
)
    requires
        v.wf(),
        cpu < MAX_CPUS,
        v.depth[cpu as int] < u64::MAX,
        v.entered[crate::occupancy::place(cpu as int, site.number())] < u64::MAX,
        v.left[crate::occupancy::place(cpu as int, site.number())] < u64::MAX,
        begun(v, w, cpu, site, false),
    ensures
        w.depth == v.depth,
        w.live(other.number(), MAX_CPUS as int) == v.live(other.number(), MAX_CPUS as int),
{
    crate::occupancy::law_leaving_undoes_entering(v, cpu, site, other, MAX_CPUS as int);
}

/// An operation that parks is still inside its site, and one that does not has
/// left it.
pub proof fn law_a_parked_operation_is_inside(
    v: OccupancyView,
    w: OccupancyView,
    cpu: u32,
    site: Site,
    parked: bool,
)
    requires
        begun(v, w, cpu, site, parked),
        v.wf(),
        cpu < crate::config::MAX_CPUS,
        v.depth[cpu as int] < u64::MAX,
    ensures
        parked ==> w.depth[cpu as int] == v.depth[cpu as int] + 1,
        !parked ==> w.depth[cpu as int] == v.depth[cpu as int],
{
}

} // verus!
