//! What the executive's message operations promise together.
use vstd::prelude::*;
use crate::config::{MAX_CPUS, MAX_THREADS};
use crate::error::KError;
use crate::exec::messaging::{
    call_over, call_step, lemma_end_of_with_end, message_result, resume_step, CallStep, PendingCall,
};
use crate::exec::ports::{drainers, lemma_signalled_frame, lemma_woken_frame};
use crate::exec::paging::{acted_on, not_for, overdue, overdue_ids};
use crate::exec::{is_id, resident_row, ExecView, Posted, Residence, RESIDENT_PLACES};
use crate::ipc::{
    answers, channels_wf, object_at, EndpointId, EndpointView, Message, MessageView, SIGNAL_MESSAGE,
};
use crate::occupancy::Site;
use crate::process::is_thread;
use crate::sched::{live_as, SchedView};
use crate::slots;
use crate::thread::{Thread, ThreadId, ThreadState};

verus! {

/// A reply answers the call it was made to: when the server answers, the caller
/// comes away with exactly that message, stamped with its own transaction.
pub proof fn law_a_reply_answers_its_call(
    v: ExecView,
    w: ExecView,
    cpu: u32,
    call: PendingCall,
    caller: ThreadId,
    m: MessageView,
    r: Result<Message, KError>,
)
    requires
        v.cpus.len() == MAX_CPUS,
        channels_wf(v.machine.channels),
        call.from.side < 2,
        v.end(call.from) matches Some(e) && e.pending_caller == Some((caller, call.txn))
            && !e.full() && !slots::any(e.queue, answers(call.txn)),
        !call_over(v.replied(call.from.peer(), m), cpu, call).gave_up_on(cpu, call.caller),
        resume_step(v.replied(call.from.peer(), m), w, cpu, call, r),
    ensures
        message_result(r) == Ok::<_, KError>(m.with_txn(call.txn)),
{
    let e = v.end(call.from)->0;
    let after = e.enqueued(m.with_txn(call.txn)).with_caller(None);
    assert(call.from.peer().peer() == call.from);
    lemma_end_of_with_end(v, call.from, after);
    let n = e.queue.len() as int;
    assert forall|i: int| 0 <= i < n implies !answers(call.txn)(#[trigger] after.queue[i]) by {
        assert(after.queue[i] == e.queue[i]);
    }
    slots::lemma_first_is(after.queue, answers(call.txn), n);
}

/// A call that was given up on leaves no trace for the next one to mistake for
/// its answer: the late reply is dropped.
pub proof fn law_an_abandoned_answer_is_dropped(v: ExecView, from: EndpointId, m: MessageView)
    requires
        channels_wf(v.machine.channels),
        from.side < 2,
        v.end(from) matches Some(e) && e.pending_caller is Some,
    ensures
        ({
            let late = v.call_aborted(from).replied(from.peer(), m);
            late.end(from) matches Some(e) && e.queue == v.end(from)->0.queue && e.pending_caller
                is None
        }),
{
    let e = v.end(from)->0;
    assert(from.peer().peer() == from);
    lemma_end_of_with_end(v, from, e.aborted());
    lemma_end_of_with_end(v, from, EndpointView { abandoned: false, ..e.aborted() });
}

/// An endpoint has at most one unanswered call: another one from the same end
/// is refused, since it would take the first one's reply.
pub proof fn law_one_call_at_a_time(
    v: ExecView,
    w: ExecView,
    cpu: u32,
    from: EndpointId,
    m: MessageView,
    r: CallStep,
)
    requires
        v.may_call(cpu),
        v.end(from) matches Some(e) && e.pending_caller is Some,
        call_step(v, w, cpu, from, m, r),
    ensures
        r == CallStep::Refused(KError::Protocol),
        w.machine == v.machine,
        w.occupancy == v.left(cpu, Site::Call).occupancy,
{
}

/// A synchronous round trip between threads of one CPU is exactly two switches:
/// one to the server that waits, and one back to the caller when it replies.
/// `x` is the machine when the server replies, having run without a switch.
pub proof fn law_a_round_trip_is_two_switches(
    v: ExecView,
    w: ExecView,
    x: ExecView,
    cpu: u32,
    from: EndpointId,
    m: MessageView,
    reply: MessageView,
    r: CallStep,
    server: usize,
    caller: usize,
)
    requires
        v.cpus.len() == MAX_CPUS,
        v.sched(cpu).switches < u64::MAX - 1,
        call_step(v, w, cpu, from, m, r),
        r matches CallStep::Parked(pending, _) && pending.callee == Some(server),
        x.cpus.len() == MAX_CPUS,
        x.sched(cpu).switches == w.sched(cpu).switches,
        x.entered(cpu, Site::Reply).reply_result(from.peer()) matches Ok(Some(id)) && x.entered(
            cpu,
            Site::Reply,
        ).replied(from.peer(), reply).residence(cpu, id) == Residence::Here(caller),
    ensures
        w.sched(cpu).switches == v.sched(cpu).switches + 1,
        w.sched(cpu).current == Some(server),
        ({
            let back = x.entered(cpu, Site::Reply).replied(from.peer(), reply).handed_off(
                cpu,
                caller,
            );
            &&& back.sched(cpu).switches == v.sched(cpu).switches + 2
            &&& back.sched(cpu).current == Some(caller)
        }),
{
    let txn = v.local(cpu).next_txn;
    let u = v.minted(cpu);
    let to = from.peer();
    let a = u.with_end(
        to,
        u.end(to)->0.enqueued(
            m.with_txn(txn).with_correlation(u.running(cpu)->0.correlation),
        ).with_receiver(None),
    ).caller_set(from, Some((u.running_id(cpu)->0, txn)));
    if let Some(o) = object_at(u.machine.channels, to) {
        lemma_signalled_frame(a, cpu, o.0 as u64, SIGNAL_MESSAGE, 1);
    }
}

/// A message that is sent to an idle end is the next one received there, with
/// the sender's cause.
pub proof fn law_what_is_sent_is_received(
    v: ExecView,
    cpu: u32,
    from: EndpointId,
    m: MessageView,
    cause: u64,
)
    requires
        v.cpus.len() == MAX_CPUS,
        channels_wf(v.machine.channels),
        from.side < 2,
        v.end(from.peer()) matches Some(e) && e.queue.len() == 0,
    ensures
        v.send_result(from) is Ok,
        v.sent_for(cpu, from, m, cause).end(from.peer()) matches Some(e) && e.queue == seq![
            m.with_correlation(cause),
        ],
{
    let to = from.peer();
    let e = v.end(to)->0;
    let after = e.enqueued(m.with_correlation(cause)).with_receiver(None);
    lemma_end_of_with_end(v, to, after);
    let a = v.with_end(to, after);
    let b = a.woken_if(cpu, e.blocked_receiver);
    if let Some(id) = e.blocked_receiver {
        lemma_woken_frame(a, cpu, id);
    }
    if let Some(o) = object_at(v.machine.channels, to) {
        lemma_signalled_frame(b, cpu, o.0 as u64, SIGNAL_MESSAGE, 1);
    }
    assert(after.queue =~= seq![m.with_correlation(cause)]);
}

/// A message is sent for what the CPU is attributed to: a sender that just swept
/// up after somebody else sends for the sweep's cause and not for its own.
pub proof fn law_a_send_carries_the_current_cause(
    v: ExecView,
    cpu: u32,
    from: EndpointId,
    m: MessageView,
    cause: u64,
)
    requires
        v.cpus.len() == MAX_CPUS,
        channels_wf(v.machine.channels),
        from.side < 2,
        v.end(from.peer()) matches Some(e) && e.queue.len() == 0,
    ensures
        v.rerooted(cpu, cause).sent(cpu, from, m).end(from.peer()) matches Some(e) && e.queue
            == seq![m.with_correlation(cause)],
{
    law_what_is_sent_is_received(v.rerooted(cpu, cause), cpu, from, m, cause);
}

/// Waking threads keeps a ready thread ready.
proof fn lemma_woken_all_keeps_ready(v: ExecView, cpu: u32, ids: Seq<ThreadId>, slot: usize)
    requires
        v.cpus.len() == MAX_CPUS,
        v.sched(cpu).threads.len() == MAX_THREADS,
        v.sched(cpu).thread(slot) matches Some(t) && t.state == ThreadState::Ready,
    ensures
        v.woken_all(cpu, ids).cpus.len() == MAX_CPUS,
        v.woken_all(cpu, ids).sched(cpu).threads.len() == MAX_THREADS,
        v.woken_all(cpu, ids).sched(cpu).thread(slot) matches Some(t) && t.state
            == ThreadState::Ready,
    decreases ids.len(),
{
    if ids.len() > 0 {
        lemma_woken_all_keeps_ready(v, cpu, ids.drop_last(), slot);
        let u = v.woken_all(cpu, ids.drop_last());
        slots::lemma_first(u.sched(cpu).threads, live_as(ids.last()));
    }
}

/// Sending wakes whoever is parked in a receive: a thread of this CPU that
/// waited there is ready to run, and no longer waits.
pub proof fn law_a_send_wakes_its_receiver(
    v: ExecView,
    cpu: u32,
    from: EndpointId,
    m: MessageView,
    cause: u64,
    slot: usize,
)
    requires
        v.cpus.len() == MAX_CPUS,
        channels_wf(v.machine.channels),
        v.sched(cpu).threads.len() == MAX_THREADS,
        from.side < 2,
        v.end(from.peer()) matches Some(e) && !e.full() && (e.blocked_receiver matches Some(id)
            && v.residence(cpu, id) == Residence::Here(slot)),
    ensures
        v.sent_for(cpu, from, m, cause).sched(cpu).thread(slot) matches Some(t) && t.state
            == ThreadState::Ready,
        v.sent_for(cpu, from, m, cause).end(from.peer()) matches Some(e) && e.blocked_receiver
            is None,
{
    let to = from.peer();
    let e = v.end(to)->0;
    let after = e.enqueued(m.with_correlation(cause)).with_receiver(None);
    lemma_end_of_with_end(v, to, after);
    let a = v.with_end(to, after);
    let id = e.blocked_receiver->0;
    lemma_woken_frame(a, cpu, id);
    let b = a.woken(cpu, id);
    slots::lemma_first(v.sched(cpu).threads, live_as(id));
    assert(b.sched(cpu).thread(slot) matches Some(t) && t.state == ThreadState::Ready);
    if let Some(o) = object_at(v.machine.channels, to) {
        lemma_signalled_frame(b, cpu, o.0 as u64, SIGNAL_MESSAGE, 1);
        lemma_woken_all_keeps_ready(
            b,
            cpu,
            drainers(b.machine.ports, o.0 as u64, SIGNAL_MESSAGE),
            slot,
        );
    }
}

/// A thread among those woken is ready, and every thread stays in its slot.
pub(crate) proof fn lemma_woken_all_readies(v: ExecView, cpu: u32, ids: Seq<ThreadId>, id: ThreadId)
    requires
        v.cpus.len() == MAX_CPUS,
        v.sched(cpu).threads.len() == MAX_THREADS,
    ensures
        ({
            let w = v.woken_all(cpu, ids);
            let slot = v.sched(cpu).slot_of(id);
            &&& w.cpus.len() == MAX_CPUS
            &&& w.sched(cpu).threads.len() == MAX_THREADS
            &&& w.sched(cpu).slot_of(id) == slot
            &&& slot < MAX_THREADS && ids.contains(id) ==> w.sched(cpu).threads[slot]->0.state
                == ThreadState::Ready
        }),
    decreases ids.len(),
{
    if ids.len() > 0 {
        let shorter = ids.drop_last();
        lemma_woken_all_readies(v, cpu, shorter, id);
        let u = v.woken_all(cpu, shorter);
        let w = v.woken_all(cpu, ids);
        let slot = v.sched(cpu).slot_of(id);
        slots::lemma_first(u.sched(cpu).threads, live_as(ids.last()));
        slots::lemma_first(u.sched(cpu).threads, live_as(id));
        assert forall|k: int| 0 <= k < MAX_THREADS implies live_as(id)(
            #[trigger] w.sched(cpu).threads[k],
        ) == live_as(id)(u.sched(cpu).threads[k]) by {}
        if slot < MAX_THREADS {
            assert(live_as(id)(w.sched(cpu).threads[slot]));
        }
        assert forall|k: int| 0 <= k < slot implies !live_as(id)(
            #[trigger] w.sched(cpu).threads[k],
        ) by {
            assert(!live_as(id)(u.sched(cpu).threads[k]));
        }
        slots::lemma_first_is(w.sched(cpu).threads, live_as(id), slot);
        if ids.contains(id) && ids.last() != id {
            let k = choose|k: int| 0 <= k < ids.len() && ids[k] == id;
            assert(shorter[k] == id);
        }
    }
}

proof fn lemma_overdue_is_listed(threads: Seq<Option<Thread>>, now: u64, i: int)
    requires
        0 <= i < threads.len(),
        overdue(now)(threads[i]),
    ensures
        overdue_ids(threads, now).contains(threads[i]->0.id),
    decreases threads.len(),
{
    let id = threads[i]->0.id;
    let rest = overdue_ids(threads.drop_last(), now);
    if i < threads.len() - 1 {
        lemma_overdue_is_listed(threads.drop_last(), now, i);
        let k = choose|k: int| 0 <= k < rest.len() && rest[k] == id;
        assert(overdue_ids(threads, now)[k] == id);
    } else {
        assert(overdue_ids(threads, now)[rest.len() as int] == id);
    }
}

/// A receive never outlives its deadline unnoticed: every receiver parked past
/// its deadline is ready once a pass has looked, however many there are.
pub proof fn law_every_late_receiver_is_woken(v: ExecView, cpu: u32, now: u64, slot: usize)
    requires
        v.cpus.len() == MAX_CPUS,
        v.sched(cpu).threads.len() == MAX_THREADS,
        slot < MAX_THREADS,
        overdue(now)(v.sched(cpu).threads[slot as int]),
        v.sched(cpu).slot_of(v.sched(cpu).threads[slot as int]->0.id) == slot,
    ensures
        v.woken_all(cpu, overdue_ids(v.sched(cpu).threads, now)).sched(cpu).threads[slot as int]
            matches Some(t) && t.state == ThreadState::Ready,
{
    let threads = v.sched(cpu).threads;
    let id = threads[slot as int]->0.id;
    let ids = overdue_ids(threads, now);
    lemma_overdue_is_listed(threads, now, slot as int);
    lemma_woken_all_readies(v, cpu, ids, id);
    slots::lemma_first(v.woken_all(cpu, ids).sched(cpu).threads, live_as(id));
}

/// What is lent is given back: once the call whose loan is in force is over, the
/// callee runs at its own priority and for its own cause again, however many
/// loans it was given meanwhile; and the end of an earlier call takes nothing
/// away from a later one.
pub proof fn law_what_is_lent_is_given_back(
    v: ExecView,
    cpu: u32,
    callee: usize,
    priority: u8,
    correlation: u64,
    txn: u64,
    earlier: u64,
)
    requires
        v.cpus.len() == MAX_CPUS,
        v.local(cpu).wf(),
        v.sched(cpu).occupied(callee),
        earlier != txn,
    ensures
        ({
            let t = v.sched(cpu).thread(callee)->0;
            let own = v.own(cpu, callee, t, txn);
            let lent = v.lent(cpu, callee, priority, correlation, txn);
            let l = lent.sched(cpu).thread(callee)->0;
            let back = lent.restored(cpu, callee, txn);
            let b = back.sched(cpu).thread(callee)->0;
            &&& l.priority == priority && l.correlation == correlation
            &&& lent.own(cpu, callee, l, txn) == own
            &&& b.priority == own.priority && b.correlation == own.correlation
            &&& v.local(cpu).loans[callee as int] is None ==> b == t
            &&& lent.restored(cpu, callee, earlier) == lent
        }),
{
}

/// A thread that entered a blocking operation can be woken from any other CPU:
/// its place was recorded, so the wakeup is posted to the CPU that owns it.
pub proof fn law_a_blocked_thread_is_reachable(
    v: ExecView,
    cpu: u32,
    other: u32,
    slot: usize,
    id: ThreadId,
    site: Site,
)
    requires
        v.cpus.len() == MAX_CPUS,
        v.machine.residents.len() == RESIDENT_PLACES,
        cpu < MAX_CPUS,
        other != cpu,
        v.sched(cpu).current == Some(slot),
        slot < MAX_THREADS,
        v.running_id(cpu) == Some(id),
        id.0 != ThreadId::UNASSIGNED,
        id.home() == cpu,
        v.sched(other).slot_of(id) == MAX_THREADS,
        forall|k: int|
            0 <= k < MAX_THREADS && k != slot ==> #[trigger] v.machine.residents[cpu * MAX_THREADS
                + k] != id,
    ensures
        v.entered(cpu, site).residence(other, id) == (Residence::Elsewhere { cpu, slot }),
        v.entered(cpu, site).woken(other, id).machine.posted == v.machine.posted.push(
            Posted { cpu, slot, id },
        ),
{
    let rows = v.entered(cpu, site).machine.residents;
    let row = resident_row(rows, cpu as int);
    assert(rows == v.machine.residents.update(cpu * MAX_THREADS + slot, id));
    assert(row[slot as int] == rows[cpu * MAX_THREADS + slot]);
    assert forall|k: int| 0 <= k < slot implies !is_id(id)(#[trigger] row[k]) by {
        assert(row[k] == rows[cpu * MAX_THREADS + k]);
        assert(v.machine.residents[cpu * MAX_THREADS + k] != id);
    }
    slots::lemma_first_is(row, is_id(id), slot as int);
    assert(v.entered(cpu, site).sched(other) == v.sched(other));
}

/// Acting on posted wakeups keeps every thread where it is and never undoes
/// one.
proof fn lemma_acted_on(s: SchedView, cpu: u32, posted: Seq<Posted>, n: int, k: int)
    requires
        s.threads.len() == MAX_THREADS,
        0 <= k < posted.len(),
        0 <= n <= posted.len(),
        posted[k].cpu == cpu,
        s.thread(posted[k].slot) matches Some(t) && t.id == posted[k].id && t.state
            != ThreadState::Exited,
    ensures
        acted_on(s, cpu, posted, n).threads.len() == MAX_THREADS,
        acted_on(s, cpu, posted, n).thread(posted[k].slot) matches Some(t) && t.id
            == posted[k].id && t.state != ThreadState::Exited && (k < n ==> t.state
            == ThreadState::Ready),
    decreases n,
{
    if n > 0 {
        lemma_acted_on(s, cpu, posted, n - 1, k);
    }
}

/// A posted wakeup is not lost: when the CPU it is for next looks, the thread
/// is ready to run, and the wakeup is taken out of the box.
pub proof fn law_a_posted_wakeup_arrives(v: ExecView, cpu: u32, k: int)
    requires
        v.cpus.len() == MAX_CPUS,
        v.sched(cpu).threads.len() == MAX_THREADS,
        0 <= k < v.machine.posted.len(),
        v.machine.posted[k].cpu == cpu,
        v.sched(cpu).thread(v.machine.posted[k].slot) matches Some(t) && t.id
            == v.machine.posted[k].id && t.state != ThreadState::Exited,
    ensures
        v.drained(cpu).sched(cpu).thread(v.machine.posted[k].slot) matches Some(t) && t.id
            == v.machine.posted[k].id && t.state == ThreadState::Ready,
        !v.drained(cpu).machine.posted.contains(v.machine.posted[k]),
{
    let posted = v.machine.posted;
    lemma_acted_on(v.sched(cpu), cpu, posted, posted.len() as int, k);
    let left = posted.filter(not_for(cpu));
    if left.contains(posted[k]) {
        let j = choose|j: int| 0 <= j < left.len() && left[j] == posted[k];
        posted.lemma_filter_pred(not_for(cpu), j);
    }
}

/// A pager that never answers is a fault and not a stuck thread: when its
/// page-in is given up on, the thread that waits is ready to run, and its call
/// ends as timed out.
pub proof fn law_a_stalled_page_in_is_told(v: ExecView, cpu: u32, i: int, slot: usize)
    requires
        v.cpus.len() == MAX_CPUS,
        v.sched(cpu).threads.len() == MAX_THREADS,
        0 <= i < v.machine.page_ins.len(),
        v.machine.page_ins[i] matches Some(f) && v.sched(cpu).slot_of(f.faulter) == slot,
        slot < MAX_THREADS,
        slots::any(v.machine.expired_callers, slots::free::<ThreadId>()),
    ensures
        v.page_in_failed(cpu, i).machine.page_ins[i] is None,
        v.page_in_failed(cpu, i).sched(cpu).thread(slot) matches Some(t) && t.state
            == ThreadState::Ready,
        v.page_in_failed(cpu, i).gave_up_on(cpu, slot),
{
    let f = v.machine.page_ins[i]->0;
    let e = v.machine.expired_callers;
    let w = v.page_in_failed(cpu, i);
    slots::lemma_first(v.sched(cpu).threads, live_as(f.faulter));
    slots::lemma_first(e, slots::free::<ThreadId>());
    let free = slots::first(e, slots::free::<ThreadId>());
    assert(free < e.len()) by {
        if free == e.len() {
            let k = choose|k: int| 0 <= k < e.len() && slots::free::<ThreadId>()(#[trigger] e[k]);
            assert(!slots::free::<ThreadId>()(e[k]));
        }
    }
    assert(w.sched(cpu) == v.sched(cpu).unblocked(slot));
    assert(w.sched(cpu).thread(slot)->0.id == f.faulter);
    assert(w.machine.expired_callers == e.update(free, Some(f.faulter)));
    slots::lemma_first(w.machine.expired_callers, is_thread(f.faulter));
    assert(is_thread(f.faulter)(w.machine.expired_callers[free]));
}

} // verus!
