//! What a message carries from one end of a channel to the other, and what each
//! of the operations on a channel does to its two ends.
use vstd::prelude::*;
use crate::config::{MAX_CHANNELS, MAX_CPUS, MAX_THREADS};
use crate::error::KError;
use crate::exec::messaging::{
    call_over, call_step, lemma_arrived_frame, lemma_end_of_with_end, receive_step, resume_step,
    CallStep, PendingCall,
};
use crate::exec::ports::{lemma_woken_frame, Step};
use crate::exec::replies::{closing, owes_reply, reply_receive_step, reply_step, scan_step};
use crate::exec::{ExecView, Residence, MAX_SYNC_DEPTH, RESIDENT_PLACES};
use crate::ipc::{
    answers, channels_wf, object_at, EndpointId, EndpointView, Message, MessageView, QUEUE_CAP,
};
use crate::object::ObjectId;
use crate::occupancy::Site;
use crate::sched::Switch;
use crate::slots;
use crate::thread::{ThreadId, ThreadState};

verus! {

/// Replacing one end leaves the other ends as they were.
proof fn lemma_other_end(v: ExecView, id: EndpointId, e: EndpointView, other: EndpointId)
    requires
        channels_wf(v.machine.channels),
        id.side < 2,
        other.side < 2,
        v.end(id) is Some,
        other != id,
    ensures
        v.with_end(id, e).end(other) == v.end(other),
        v.with_end(id, e).machine.channels.len() == MAX_CHANNELS,
        e.wf() ==> channels_wf(v.with_end(id, e).machine.channels),
{
    let t = v.machine.channels;
    let w = v.with_end(id, e).machine.channels;
    if other.channel == id.channel {
        assert(other.side != id.side);
    }
    if e.wf() {
        assert forall|i: int| 0 <= i < MAX_CHANNELS implies ((#[trigger] w[i]) matches Some(c)
            ==> c.wf()) by {
            assert(t[i] matches Some(c) ==> c.wf());
        }
    }
}

/// A call puts its request at the other end whole: behind what was queued there
/// already, with the payload, the handles and the interface, method and flags
/// that the caller gave it, under a transaction of its own and with the caller's
/// cause. The caller is who waits for the answer.
pub proof fn law_a_request_arrives_whole(
    v: ExecView,
    w: ExecView,
    cpu: u32,
    from: EndpointId,
    m: MessageView,
    r: CallStep,
    other: EndpointId,
)
    requires
        v.cpus.len() == MAX_CPUS,
        channels_wf(v.machine.channels),
        from.side < 2,
        other.side < 2,
        other != from,
        other != from.peer(),
        call_step(v, w, cpu, from, m, r),
        r is Parked,
    ensures
        v.end(from) matches Some(a) && a.pending_caller is None,
        v.end(from.peer()) matches Some(e) && e.queue.len() != QUEUE_CAP && (w.end(
            from.peer(),
        ) matches Some(f) && {
            let got = f.queue.last();
            &&& f.queue.len() == e.queue.len() + 1
            &&& forall|k: int| 0 <= k < e.queue.len() ==> #[trigger] f.queue[k] == e.queue[k]
            &&& got.inline == m.inline
            &&& got.handles == m.handles
            &&& got.header.interface_id == m.header.interface_id
            &&& got.header.method_id == m.header.method_id
            &&& got.header.flags == m.header.flags
            &&& got.header.txn_id == r->Parked_0.txn
            &&& got.header.txn_id == v.local(cpu).next_txn
            &&& got.header.correlation == v.running(cpu)->0.correlation
            &&& f.blocked_receiver is None
            &&& f.peer_closed == e.peer_closed
            &&& f.pending_caller == e.pending_caller
        }),
        w.end(from) matches Some(b) && b.pending_caller == Some(
            (v.running(cpu)->0.id, r->Parked_0.txn),
        ) && b.queue == v.end(from)->0.queue && b.blocked_receiver == v.end(
            from,
        )->0.blocked_receiver && b.peer_closed == v.end(from)->0.peer_closed,
        w.end(other) == v.end(other),
        r->Parked_0.from == from,
        Some(r->Parked_0.caller) == v.sched(cpu).current,
        v.local(cpu).next_txn < u64::MAX ==> w.local(cpu).next_txn == v.local(cpu).next_txn + 1,
{
    let txn = v.local(cpu).next_txn;
    let u = v.minted(cpu);
    let to = from.peer();
    let e = u.end(to)->0;
    assert(to.peer() == from);
    let sent = m.with_txn(txn).with_correlation(u.running(cpu)->0.correlation);
    let f = e.enqueued(sent).with_receiver(None);
    lemma_end_of_with_end(u, to, f);
    lemma_other_end(u, to, f, from);
    let a = u.with_end(to, f);
    let c = a.caller_set(from, Some((u.running_id(cpu)->0, txn)));
    let t0 = u.machine.channels;
    let t1 = a.machine.channels;
    let t2 = c.machine.channels;
    assert(t2[from.channel as int]->0.ends[to.side as int] == f);
    if other.channel != from.channel {
        assert(t2[other.channel as int] == t0[other.channel as int] || other.channel
            >= MAX_CHANNELS);
    }
    lemma_arrived_frame(c, cpu, object_at(u.machine.channels, to));
    assert(f.queue.last() == sent);
}

/// A call is refused for a reason that holds, and a refused call touches no
/// channel.
pub proof fn law_a_call_is_refused_for_cause(
    v: ExecView,
    w: ExecView,
    cpu: u32,
    from: EndpointId,
    m: MessageView,
    r: CallStep,
)
    requires
        v.cpus.len() == MAX_CPUS,
        call_step(v, w, cpu, from, m, r),
    ensures
        r matches CallStep::Refused(e) ==> w.machine.channels == v.machine.channels && w.sched(cpu)
            == v.sched(cpu),
        v.running(cpu) is None ==> r == CallStep::Refused(KError::BadHandle),
        v.running(cpu) is Some ==> {
            let depth = v.local(cpu).sync_depth[v.sched(cpu).current->0 as int];
            &&& depth >= MAX_SYNC_DEPTH ==> r == CallStep::Refused(KError::Protocol)
            &&& depth < MAX_SYNC_DEPTH && v.end(from) is None ==> r == CallStep::Refused(
                KError::BadHandle,
            )
            &&& depth < MAX_SYNC_DEPTH && v.end(from) is Some && v.end(from)->0.pending_caller
                is Some ==> r == CallStep::Refused(KError::Protocol)
            &&& depth < MAX_SYNC_DEPTH && v.end(from) is Some && v.end(from)->0.pending_caller
                is None && v.end(from.peer())->0.queue.len() == QUEUE_CAP ==> r
                == CallStep::Refused(KError::WouldBlock)
            &&& depth < MAX_SYNC_DEPTH && v.end(from) is Some && v.end(from)->0.pending_caller
                is None && v.end(from.peer())->0.queue.len() != QUEUE_CAP ==> r is Parked
        },
{
}

/// A server that waits on the same CPU runs at once, at its caller's priority
/// and for its caller's cause, and the caller is parked.
pub proof fn law_a_callee_runs_for_its_caller(
    v: ExecView,
    w: ExecView,
    cpu: u32,
    from: EndpointId,
    m: MessageView,
    r: CallStep,
)
    requires
        v.cpus.len() == MAX_CPUS,
        v.local(cpu).wf(),
        channels_wf(v.machine.channels),
        from.side < 2,
        call_step(v, w, cpu, from, m, r),
        r matches CallStep::Parked(p, _) && p.callee matches Some(i) && Some(i) != v.sched(
            cpu,
        ).current && v.running(cpu)->0.state != ThreadState::Exited,
    ensures
        ({
            let i = r->Parked_0.callee->0;
            let slot = v.sched(cpu).current->0;
            let me = v.running(cpu)->0;
            let s = w.sched(cpu);
            &&& s.current == Some(i)
            &&& r->Parked_1.to == Some(i)
            &&& r->Parked_1.from == Some(slot)
            &&& s.threads[i as int] matches Some(t) && t.priority == me.priority && t.correlation
                == me.correlation && Some(t.id) == v.end(from.peer())->0.blocked_receiver
            &&& s.cause == me.correlation
            &&& w.local(cpu).sync_depth[slot as int] == (v.local(cpu).sync_depth[slot as int] + 1)
        }),
{
    let txn = v.local(cpu).next_txn;
    let u = v.minted(cpu);
    let to = from.peer();
    let e = u.end(to)->0;
    let sent = m.with_txn(txn).with_correlation(u.running(cpu)->0.correlation);
    let a = u.with_end(to, e.enqueued(sent).with_receiver(None)).caller_set(
        from,
        Some((u.running_id(cpu)->0, txn)),
    );
    lemma_arrived_frame(a, cpu, object_at(u.machine.channels, to));
    let c = u.called(cpu, from, m, txn);
    let id = e.blocked_receiver->0;
    slots::lemma_first(c.sched(cpu).threads, crate::sched::live_as(id));
    lemma_arrived_threads(a, cpu, object_at(u.machine.channels, to));
}

/// Signalling an arrival keeps every thread in its slot and wakes some.
pub(crate) proof fn lemma_arrived_threads(
    v: ExecView,
    cpu: u32,
    destination: Option<ObjectId>,
)
    requires
        v.cpus.len() == MAX_CPUS,
        v.sched(cpu).threads.len() == MAX_THREADS,
    ensures
        v.arrived(cpu, destination).sched(cpu).threads.len() == MAX_THREADS,
        forall|k: int|
            0 <= k < MAX_THREADS ==> ((#[trigger] v.arrived(cpu, destination).sched(cpu).threads[k])
                is Some == v.sched(cpu).threads[k] is Some),
{
    if let Some(o) = destination {
        let ids = crate::exec::ports::drainers(
            v.machine.ports,
            o.0 as u64,
            crate::ipc::SIGNAL_MESSAGE,
        );
        lemma_woken_all_threads(v, cpu, ids);
    }
}

/// Waking keeps every thread in its slot.
pub(crate) proof fn lemma_woken_all_threads(v: ExecView, cpu: u32, ids: Seq<ThreadId>)
    requires
        v.cpus.len() == MAX_CPUS,
        v.sched(cpu).threads.len() == MAX_THREADS,
    ensures
        v.woken_all(cpu, ids).cpus.len() == MAX_CPUS,
        v.woken_all(cpu, ids).sched(cpu).threads.len() == MAX_THREADS,
        forall|k: int|
            0 <= k < MAX_THREADS ==> ((#[trigger] v.woken_all(cpu, ids).sched(cpu).threads[k])
                is Some == v.sched(cpu).threads[k] is Some),
    decreases ids.len(),
{
    if ids.len() > 0 {
        lemma_woken_all_threads(v, cpu, ids.drop_last());
    }
}

/// A receive takes the message in front, as it was queued, and leaves the rest
/// in order; the receiver goes on for that message's cause, if it has one.
/// Without a message, a closed peer and a channel that is not there are errors,
/// and otherwise the receiver waits at this end.
pub proof fn law_a_receive_takes_the_front(
    v: ExecView,
    w: ExecView,
    cpu: u32,
    on: EndpointId,
    site: Site,
    r: Step<Result<Message, KError>>,
    other: EndpointId,
)
    requires
        v.cpus.len() == MAX_CPUS,
        channels_wf(v.machine.channels),
        v.local(cpu).wf(),
        on.side < 2,
        other.side < 2,
        other != on,
        receive_step(v, w, cpu, on, site, r),
    ensures
        w.end(other) == v.end(other),
        v.end(on) is None ==> (r matches Step::Done(d) && d == Err::<Message, _>(
            KError::BadHandle,
        )),
        v.end(on) matches Some(e) ==> {
            &&& e.queue.len() > 0 ==> {
                &&& r matches Step::Done(d)
                &&& d matches Ok(m)
                &&& m@.inline == e.queue[0].inline
                &&& m@.handles == e.queue[0].handles
                &&& m@.header == e.queue[0].header
                &&& w.end(on) matches Some(f)
                &&& f.queue.len() == e.queue.len() - 1
                &&& forall|k: int|
                    0 <= k < f.queue.len() ==> #[trigger] f.queue[k] == e.queue[k + 1]
                &&& f.pending_caller == e.pending_caller
                &&& v.running(cpu) is Some && m@.header.correlation != 0 ==> w.running(cpu)->0.correlation
                    == m@.header.correlation
                &&& v.running(cpu) is Some && m@.header.correlation == 0 ==> w.running(cpu)
                    == v.running(cpu)
            }
            &&& e.queue.len() == 0 && e.peer_closed ==> (r matches Step::Done(d) && d == Err::<
                Message,
                _,
            >(KError::PeerClosed)) && w.end(on) == v.end(on)
            &&& e.queue.len() == 0 && !e.peer_closed && v.running(cpu) is Some ==> {
                &&& r is Park
                &&& w.end(on) matches Some(f)
                &&& f.blocked_receiver == Some(v.running(cpu)->0.id)
                &&& f.queue == e.queue && f.pending_caller == e.pending_caller
            }
        },
{
    if let Some(e) = v.end(on) {
        lemma_end_of_with_end(v, on, e.dequeued());
        lemma_other_end(v, on, e.dequeued(), other);
        if let Some(me) = v.running_id(cpu) {
            lemma_end_of_with_end(v, on, e.with_receiver(Some(me)));
            lemma_other_end(v, on, e.with_receiver(Some(me)), other);
        }
    }
}

/// A request reaches its server as it was made: a server that receives on the
/// other end, where nothing else was queued, takes the payload, the handles and
/// the method that were called.
pub proof fn law_a_server_takes_the_request_it_was_sent(
    v: ExecView,
    w: ExecView,
    x: ExecView,
    y: ExecView,
    cpu: u32,
    server: u32,
    from: EndpointId,
    m: MessageView,
    r: CallStep,
    site: Site,
    taken: Step<Result<Message, KError>>,
)
    requires
        v.cpus.len() == MAX_CPUS,
        x.cpus.len() == MAX_CPUS,
        channels_wf(v.machine.channels),
        channels_wf(x.machine.channels),
        x.local(server).wf(),
        from.side < 2,
        call_step(v, w, cpu, from, m, r),
        r is Parked,
        v.end(from.peer())->0.queue.len() == 0,
        x.end(from.peer()) == w.end(from.peer()),
        receive_step(x, y, server, from.peer(), site, taken),
    ensures
        taken matches Step::Done(d) && d matches Ok(got) && {
            &&& got@.inline == m.inline
            &&& got@.handles == m.handles
            &&& got@.header.interface_id == m.header.interface_id
            &&& got@.header.method_id == m.header.method_id
            &&& got@.header.flags == m.header.flags
            &&& got@.header.txn_id == r->Parked_0.txn
            &&& got@.header.correlation == v.running(cpu)->0.correlation
        },
{
    let far = EndpointId { channel: (from.channel + 1) as usize, side: 0 };
    let other = if far.channel == from.channel {
        EndpointId { channel: 0, side: 0 }
    } else {
        far
    };
    assert(other != from && other != from.peer());
    law_a_request_arrives_whole(v, w, cpu, from, m, r, other);
    law_a_receive_takes_the_front(x, y, server, from.peer(), site, taken, other);
}

/// A reply reaches its caller as it was made: the payload, the handles, and the
/// interface, method, flags and cause that the server gave it, under the
/// transaction that was asked.
pub proof fn law_a_caller_takes_the_reply_it_was_sent(
    v: ExecView,
    w: ExecView,
    cpu: u32,
    call: PendingCall,
    caller: ThreadId,
    m: MessageView,
    r: Result<Message, KError>,
)
    requires
        v.cpus.len() == MAX_CPUS,
        channels_wf(v.machine.channels),
        call.from.side < 2,
        v.end(call.from) matches Some(e) && e.pending_caller == Some((caller, call.txn))
            && e.queue.len() < QUEUE_CAP && forall|k: int|
            0 <= k < e.queue.len() ==> (#[trigger] e.queue[k]).header.txn_id != call.txn,
        !call_over(v.replied(call.from.peer(), m), cpu, call).gave_up_on(cpu, call.caller),
        resume_step(v.replied(call.from.peer(), m), w, cpu, call, r),
    ensures
        r matches Ok(got) && {
            &&& got@.inline == m.inline
            &&& got@.handles == m.handles
            &&& got@.header.interface_id == m.header.interface_id
            &&& got@.header.method_id == m.header.method_id
            &&& got@.header.flags == m.header.flags
            &&& got@.header.correlation == m.header.correlation
            &&& got@.header.txn_id == call.txn
        },
        w.end(call.from) matches Some(f) && f.pending_caller is None && f.queue == v.end(
            call.from,
        )->0.queue,
{
    let e = v.end(call.from)->0;
    if slots::any(e.queue, answers(call.txn)) {
        let k = choose|k: int|
            0 <= k < e.queue.len() && answers(call.txn)(#[trigger] e.queue[k]);
        assert(e.queue[k].header.txn_id == call.txn);
    }
    crate::exec::laws::law_a_reply_answers_its_call(v, w, cpu, call, caller, m, r);
    let after = e.enqueued(m.with_txn(call.txn)).with_caller(None);
    assert(call.from.peer().peer() == call.from);
    lemma_end_of_with_end(v, call.from, after);
    let n = e.queue.len() as int;
    assert forall|i: int| 0 <= i < n implies !answers(call.txn)(#[trigger] after.queue[i]) by {
        assert(after.queue[i] == e.queue[i]);
    }
    slots::lemma_first_is(after.queue, answers(call.txn), n);
    assert(after.queue.remove(n) =~= e.queue);
    let u = call_over(v.replied(call.from.peer(), m), cpu, call);
    let b = v.replied(call.from.peer(), m);
    assert(u.machine.channels == b.machine.channels);
    let g = EndpointView { queue: after.queue.remove(n), pending_caller: None, ..after };
    assert(w == u.with_end(call.from, g));
}

/// A reply goes to whoever waits for it and to nobody else: it is queued whole
/// at the caller's end, under the transaction the caller waits for, and that end
/// waits no longer. Where there is no caller it is queued as it is, unless it
/// answers a call that was given up on. A full queue takes nothing.
pub proof fn law_a_reply_is_queued_whole(
    v: ExecView,
    on: EndpointId,
    m: MessageView,
    other: EndpointId,
)
    requires
        channels_wf(v.machine.channels),
        on.side < 2,
        other.side < 2,
        other != on.peer(),
    ensures
        v.replied(on, m).end(other) == v.end(other),
        v.replied(on, m).cpus == v.cpus,
        v.end(on.peer()) is None ==> v.reply_result(on) == Err::<Option<ThreadId>, _>(
            KError::BadHandle,
        ),
        v.end(on.peer()) matches Some(e) ==> (v.replied(on, m).end(on.peer()) matches Some(f) && {
            &&& e.pending_caller is Some && e.queue.len() == QUEUE_CAP ==> f == e
                && v.reply_result(on) == Err::<Option<ThreadId>, _>(KError::WouldBlock)
            &&& e.pending_caller is Some && e.queue.len() != QUEUE_CAP ==> {
                &&& v.reply_result(on) == Ok::<_, KError>(Some((e.pending_caller->0).0))
                &&& f.pending_caller is None
                &&& f.queue.len() == e.queue.len() + 1
                &&& forall|k: int| 0 <= k < e.queue.len() ==> #[trigger] f.queue[k] == e.queue[k]
                &&& f.queue.last().inline == m.inline
                &&& f.queue.last().handles == m.handles
                &&& f.queue.last().header.txn_id == (e.pending_caller->0).1
                &&& f.queue.last().header.interface_id == m.header.interface_id
                &&& f.queue.last().header.method_id == m.header.method_id
                &&& f.queue.last().header.flags == m.header.flags
                &&& f.queue.last().header.correlation == m.header.correlation
            }
            &&& e.pending_caller is None && e.abandoned ==> {
                &&& v.reply_result(on) == Ok::<_, KError>(None::<ThreadId>)
                &&& f.queue == e.queue && !f.abandoned
            }
            &&& e.pending_caller is None && !e.abandoned && e.queue.len() == QUEUE_CAP ==> f == e
                && v.reply_result(on) == Err::<Option<ThreadId>, _>(KError::WouldBlock)
            &&& e.pending_caller is None && !e.abandoned && e.queue.len() != QUEUE_CAP ==> {
                &&& v.reply_result(on) == Ok::<_, KError>(None::<ThreadId>)
                &&& f.queue.len() == e.queue.len() + 1
                &&& f.queue.last() == m
                &&& forall|k: int| 0 <= k < e.queue.len() ==> #[trigger] f.queue[k] == e.queue[k]
            }
            &&& f.blocked_receiver == e.blocked_receiver && f.peer_closed == e.peer_closed
        }),
{
    let to = on.peer();
    if let Some(e) = v.end(to) {
        if let Some((_, txn)) = e.pending_caller {
            let f = e.enqueued(m.with_txn(txn)).with_caller(None);
            lemma_end_of_with_end(v, to, f);
            lemma_other_end(v, to, f, other);
        } else {
            let f = EndpointView { abandoned: false, ..e };
            lemma_end_of_with_end(v, to, f);
            lemma_other_end(v, to, f, other);
            lemma_end_of_with_end(v, to, e.enqueued(m));
            lemma_other_end(v, to, e.enqueued(m), other);
        }
    }
}

/// A server's reply hands its caller, where that waits on the same CPU, the
/// processor, and is otherwise refused or over without a switch.
pub proof fn law_a_reply_hands_over_to_its_caller(
    v: ExecView,
    w: ExecView,
    cpu: u32,
    on: EndpointId,
    m: MessageView,
    r: Result<Option<Switch>, KError>,
)
    requires
        v.cpus.len() == MAX_CPUS,
        v.local(cpu).wf(),
        reply_step(v, w, cpu, on, m, r),
    ensures
        v.end(on.peer()) is None ==> r == Err::<Option<Switch>, _>(KError::BadHandle),
        v.end(on.peer()) matches Some(e) && e.queue.len() == QUEUE_CAP && (e.pending_caller is Some
            || !e.abandoned) ==> r == Err::<Option<Switch>, _>(KError::WouldBlock),
        r matches Ok(Some(s)) ==> {
            &&& v.end(on.peer()) matches Some(e)
            &&& e.pending_caller matches Some((caller, _))
            &&& s.to matches Some(i)
            &&& v.sched(cpu).threads[i as int] matches Some(t)
            &&& t.id == caller
            &&& w.sched(cpu).current == Some(i)
            &&& s.from == v.sched(cpu).current
        },
        r matches Ok(None) ==> w.sched(cpu) == v.sched(cpu),
        r is Err ==> w.sched(cpu) == v.sched(cpu) && w.machine.posted == v.machine.posted,
{
    let d = v.replied(on, m);
    if let Ok(Some(caller)) = v.reply_result(on) {
        slots::lemma_first(d.sched(cpu).threads, crate::sched::live_as(caller));
    }
}

/// A sent message is queued whole at the other end, behind what was there, with
/// the cause it is sent for, and whoever was parked there no longer is.
pub proof fn law_a_sent_message_is_queued_whole(
    v: ExecView,
    cpu: u32,
    from: EndpointId,
    m: MessageView,
    cause: u64,
    other: EndpointId,
)
    requires
        v.cpus.len() == MAX_CPUS,
        channels_wf(v.machine.channels),
        from.side < 2,
        other.side < 2,
        other != from.peer(),
    ensures
        v.sent_for(cpu, from, m, cause).end(other) == v.end(other),
        v.end(from.peer()) is None ==> v.send_result(from) == Err::<(), _>(KError::BadHandle)
            && v.sent_for(cpu, from, m, cause) == v,
        v.end(from.peer()) matches Some(e) ==> {
            &&& e.queue.len() == QUEUE_CAP ==> v.send_result(from) == Err::<(), _>(
                KError::WouldBlock,
            ) && v.sent_for(cpu, from, m, cause) == v
            &&& e.queue.len() != QUEUE_CAP ==> {
                &&& v.send_result(from) is Ok
                &&& v.sent_for(cpu, from, m, cause).end(from.peer()) matches Some(f)
                &&& f.queue.len() == e.queue.len() + 1
                &&& forall|k: int| 0 <= k < e.queue.len() ==> #[trigger] f.queue[k] == e.queue[k]
                &&& f.queue.last().inline == m.inline
                &&& f.queue.last().handles == m.handles
                &&& f.queue.last().header.interface_id == m.header.interface_id
                &&& f.queue.last().header.method_id == m.header.method_id
                &&& f.queue.last().header.flags == m.header.flags
                &&& f.queue.last().header.txn_id == m.header.txn_id
                &&& f.queue.last().header.correlation == cause
                &&& f.blocked_receiver is None
                &&& f.pending_caller == e.pending_caller
                &&& f.peer_closed == e.peer_closed
            }
        },
        v.sent(cpu, from, m) == v.sent_for(cpu, from, m, v.sched(cpu).cause),
{
    let to = from.peer();
    if let Some(e) = v.end(to) {
        let f = e.enqueued(m.with_correlation(cause)).with_receiver(None);
        lemma_end_of_with_end(v, to, f);
        lemma_other_end(v, to, f, other);
        let a = v.with_end(to, f);
        if let Some(id) = e.blocked_receiver {
            lemma_woken_frame(a, cpu, id);
        }
        lemma_arrived_frame(
            a.woken_if(cpu, e.blocked_receiver),
            cpu,
            object_at(v.machine.channels, to),
        );
        assert(f.queue.last() == m.with_correlation(cause));
    }
}

/// A finished call is over: the caller is one call less deep, what its endpoint
/// waited for is not waited for any more, and without an answer it is told why.
pub proof fn law_a_finished_call_waits_no_longer(
    v: ExecView,
    w: ExecView,
    cpu: u32,
    call: PendingCall,
    r: Result<Message, KError>,
)
    requires
        v.cpus.len() == MAX_CPUS,
        v.local(cpu).wf(),
        channels_wf(v.machine.channels),
        call.from.side < 2,
        call.caller < MAX_THREADS,
        call.callee matches Some(i) ==> i < MAX_THREADS,
        v.local(cpu).sync_depth[call.caller as int] > 0,
        resume_step(v, w, cpu, call, r),
    ensures
        w.local(cpu).sync_depth[call.caller as int] == v.local(cpu).sync_depth[call.caller as int]
            - 1,
        w.end(call.from) matches Some(f) ==> f.pending_caller is None,
        r matches Ok(m) ==> m@.header.txn_id == call.txn,
        v.end(call.from) matches Some(e) ==> ((forall|k: int|
            0 <= k < e.queue.len() ==> (#[trigger] e.queue[k]).header.txn_id != call.txn) ==> {
            &&& r matches Err(x)
            &&& x == KError::TimedOut || x == KError::PeerClosed || x == KError::Protocol
            &&& x == KError::PeerClosed ==> e.queue.len() == 0
            &&& x == KError::Protocol ==> e.queue.len() > 0
            &&& w.end(call.from)->0.queue == e.queue
        }),
{
    let u = call_over(v, cpu, call);
    if let Some(e) = v.end(call.from) {
        assert(u.machine.channels == v.machine.channels);
        slots::lemma_first(e.queue, answers(call.txn));
        let at = e.reply_at(call.txn);
        if at < e.queue.len() {
            assert(answers(call.txn)(e.queue[at]));
        }
        lemma_end_of_with_end(u, call.from, e.with_caller(None));
        let g = EndpointView { queue: e.queue.remove(at), pending_caller: None, ..e };
        lemma_end_of_with_end(u, call.from, g);
        if u.gave_up_on(cpu, call.caller) {
            let x = u.expiry_taken(u.sched(cpu).thread(call.caller)->0.id);
            lemma_end_of_with_end(x, call.from, e.with_caller(None));
        }
    }
}

/// Closing an end is seen at the other end and nowhere else, and loses no
/// message.
pub proof fn law_closing_is_seen_by_the_peer(
    v: ExecView,
    cpu: u32,
    endpoint: EndpointId,
    other: EndpointId,
)
    requires
        v.cpus.len() == MAX_CPUS,
        channels_wf(v.machine.channels),
        endpoint.side < 2,
        other.side < 2,
        other != endpoint.peer(),
        v.end(endpoint) is Some,
    ensures
        v.closed(cpu, endpoint).end(endpoint.peer()) matches Some(f) && f.peer_closed && f.queue
            == v.end(endpoint.peer())->0.queue && f.pending_caller == v.end(
            endpoint.peer(),
        )->0.pending_caller && f.blocked_receiver == v.end(endpoint.peer())->0.blocked_receiver,
        v.closed(cpu, endpoint).end(other) == v.end(other),
{
    let to = endpoint.peer();
    let e = v.end(to)->0;
    let f = EndpointView { peer_closed: true, ..e };
    lemma_end_of_with_end(v, to, f);
    lemma_other_end(v, to, f, other);
    let a = v.with_end(to, f);
    if let Some(id) = e.blocked_receiver {
        lemma_woken_frame(a, cpu, id);
    }
    let b = a.woken_if(cpu, e.blocked_receiver);
    if let Some((t, _)) = e.pending_caller {
        lemma_woken_frame(b, cpu, t);
    }
}

/// Receiving on several ends takes from the first one in the list that has a
/// message, and says which. It fails when every peer is gone, or once the
/// deadline is reached; an end that is not there is an error only when nothing
/// before it has a message.
pub proof fn law_receive_any_takes_the_first_that_speaks(
    v: ExecView,
    w: ExecView,
    cpu: u32,
    endpoints: Seq<EndpointId>,
    deadline: Option<u64>,
    now: u64,
    r: Step<Result<(usize, Message), KError>>,
)
    requires
        v.cpus.len() == MAX_CPUS,
        scan_step(v, w, cpu, endpoints, deadline, now, r),
    ensures
        r matches Step::Done(Ok((i, m))) ==> {
            &&& i < endpoints.len()
            &&& v.end(endpoints[i as int]) matches Some(e)
            &&& e.queue.len() > 0
            &&& m@.inline == e.queue[0].inline
            &&& m@.handles == e.queue[0].handles
            &&& m@.header == e.queue[0].header
            &&& forall|k: int|
                0 <= k < i ==> (v.end(#[trigger] endpoints[k]) matches Some(f) && f.queue.len()
                    == 0)
        },
        (exists|k: int|
            0 <= k < endpoints.len() && (v.end(#[trigger] endpoints[k]) matches Some(e)
                && e.queue.len() > 0) && forall|j: int|
                0 <= j < k ==> v.end(#[trigger] endpoints[j]) is Some) ==> r matches Step::Done(
            Ok(_),
        ),
        r matches Step::Done(Err(KError::PeerClosed)) ==> forall|k: int|
            0 <= k < endpoints.len() ==> (v.end(#[trigger] endpoints[k]) matches Some(e)
                && e.peer_closed && e.queue.len() == 0),
        r matches Step::Done(Err(KError::TimedOut)) ==> (deadline matches Some(at) && now >= at),
        r is Park ==> {
            &&& deadline matches Some(at) ==> now < at
            &&& forall|k: int|
                0 <= k < endpoints.len() ==> (v.end(#[trigger] endpoints[k]) matches Some(e)
                    && e.queue.len() == 0)
            &&& exists|k: int|
                0 <= k < endpoints.len() && (v.end(#[trigger] endpoints[k]) matches Some(e)
                    && !e.peer_closed)
        },
{
    slots::lemma_first(endpoints, v.stops());
    let at = slots::first(endpoints, v.stops());
    assert forall|k: int| 0 <= k < at implies (v.end(#[trigger] endpoints[k]) matches Some(f)
        && f.queue.len() == 0) by {
        assert(!v.stops()(endpoints[k]));
    }
    if at < endpoints.len() {
        assert(v.stops()(endpoints[at]));
    }
    if !slots::any(endpoints, v.may_speak()) {
        assert forall|k: int| 0 <= k < endpoints.len() implies !v.may_speak()(
            #[trigger] endpoints[k],
        ) by {}
    } else {
        let k = choose|k: int| 0 <= k < endpoints.len() && v.may_speak()(#[trigger] endpoints[k]);
        assert(v.may_speak()(endpoints[k]));
    }
}

/// A thread is reached where it is: here, if a live thread of that identity is
/// in this CPU's table, in its slot; else on the CPU and in the slot that were
/// recorded for it.
pub proof fn law_a_thread_is_reached_where_it_is(v: ExecView, cpu: u32, id: ThreadId)
    requires
        v.cpus.len() == MAX_CPUS,
        v.local(cpu).wf(),
        v.machine.residents.len() == RESIDENT_PLACES,
    ensures
        match v.residence(cpu, id) {
            Residence::Here(i) => i < MAX_THREADS && (v.sched(cpu).threads[i as int] matches Some(t)
                && t.id == id && t.state != ThreadState::Exited),
            _ => forall|k: int|
                0 <= k < MAX_THREADS ==> (#[trigger] v.sched(cpu).threads[k] matches Some(t)
                    ==> t.id != id || t.state == ThreadState::Exited),
        },
        v.residence(cpu, id) matches Residence::Elsewhere { cpu: other, slot } ==> {
            &&& other != cpu
            &&& other < MAX_CPUS
            &&& slot < MAX_THREADS
            &&& v.machine.residents[other * MAX_THREADS + slot] == id
        },
{
    let s = v.sched(cpu);
    slots::lemma_first(s.threads, crate::sched::live_as(id));
    if s.slot_of(id) == MAX_THREADS {
        assert forall|k: int| 0 <= k < MAX_THREADS implies (#[trigger] v.sched(
            cpu,
        ).threads[k] matches Some(t) ==> t.id != id || t.state == ThreadState::Exited) by {
            assert(!crate::sched::live_as(id)(s.threads[k]));
        }
    }
    let home = id.home();
    if home < MAX_CPUS {
        let row = crate::exec::resident_row(v.machine.residents, home);
        slots::lemma_first(row, crate::exec::is_id(id));
        let slot = slots::first(row, crate::exec::is_id(id));
        if slot < MAX_THREADS {
            assert(row[slot] == v.machine.residents[home * MAX_THREADS + slot]);
        }
    }
}

/// Waking a thread makes it ready and queues it where it is, or posts the wakeup
/// to the CPU that has it; and changes nothing else anywhere.
pub proof fn law_a_wakeup_reaches_one_thread(v: ExecView, cpu: u32, id: ThreadId, other: int)
    requires
        v.cpus.len() == MAX_CPUS,
        v.local(cpu).wf(),
        0 <= other < MAX_CPUS,
        other != cpu,
        cpu < MAX_CPUS,
    ensures
        ({
            let w = v.woken(cpu, id);
            &&& w.cpus.len() == MAX_CPUS
            &&& w.cpus[other] == v.cpus[other]
            &&& w.cpus[cpu as int].loans == v.cpus[cpu as int].loans
            &&& w.cpus[cpu as int].next_txn == v.cpus[cpu as int].next_txn
            &&& w.cpus[cpu as int].sync_depth == v.cpus[cpu as int].sync_depth
            &&& w.occupancy == v.occupancy
            &&& w.machine.channels == v.machine.channels && w.machine.ports == v.machine.ports
            &&& match v.residence(cpu, id) {
                Residence::Here(i) => {
                    let s = v.cpus[cpu as int].sched;
                    let t = w.cpus[cpu as int].sched;
                    &&& w.machine.posted == v.machine.posted
                    &&& t.threads[i as int] == Some(
                        crate::thread::Thread {
                            state: ThreadState::Ready,
                            ..s.threads[i as int]->0
                        },
                    )
                    &&& s.ready.len() < MAX_THREADS ==> t.ready == s.ready.push(i)
                    &&& forall|k: int|
                        0 <= k < MAX_THREADS && k != i ==> #[trigger] t.threads[k] == s.threads[k]
                },
                Residence::Elsewhere { cpu: far, slot } => {
                    &&& w.cpus[cpu as int] == v.cpus[cpu as int]
                    &&& w.machine.posted.len() == v.machine.posted.len() + 1
                    &&& w.machine.posted.drop_last() == v.machine.posted
                    &&& w.machine.posted.last().cpu == far
                    &&& w.machine.posted.last().slot == slot
                    &&& w.machine.posted.last().id == id
                },
                Residence::Gone => w == v,
            }
        }),
{
    let s = v.sched(cpu);
    slots::lemma_first(s.threads, crate::sched::live_as(id));
    let w = v.woken(cpu, id);
    if v.residence(cpu, id) is Elsewhere {
        assert(w.machine.posted.drop_last() =~= v.machine.posted);
    }
    if v.residence(cpu, id) is Here {
        assert(crate::sched::live_as(id)(s.threads[s.slot_of(id)]));
    }
}

/// A CPU has the half of the machine at its own index, and one beyond the last
/// has the boot CPU's; changing it changes no other CPU's.
pub proof fn law_a_cpu_has_its_own_half(
    v: ExecView,
    cpu: u32,
    sched: crate::sched::SchedView,
    other: int,
)
    requires
        v.cpus.len() == MAX_CPUS,
        0 <= other < MAX_CPUS,
    ensures
        cpu < MAX_CPUS ==> v.sched(cpu) == v.cpus[cpu as int].sched,
        cpu >= MAX_CPUS ==> v.sched(cpu) == v.cpus[0].sched,
        v.with_sched(cpu, sched).sched(cpu) == sched,
        v.with_sched(cpu, sched).machine == v.machine,
        v.with_sched(cpu, sched).occupancy == v.occupancy,
        cpu < MAX_CPUS && other != cpu ==> v.with_sched(cpu, sched).cpus[other] == v.cpus[other],
        v.running(cpu) matches Some(t) ==> (v.sched(cpu).current matches Some(i) && v.sched(
            cpu,
        ).threads[i as int] == Some(t) && v.running_id(cpu) == Some(t.id)),
        v.sched(cpu).current is None ==> v.running(cpu) is None && v.running_id(cpu) is None,
        v.cause(cpu) == v.sched(cpu).cause,
{
}

/// A thread that waits on several ends is registered at each of them, and its
/// registration is cleared at each of them; no message moves.
pub proof fn law_a_waiter_is_registered_at_every_end(
    v: ExecView,
    endpoints: Seq<EndpointId>,
    n: int,
    thread: Option<ThreadId>,
    id: EndpointId,
)
    requires
        channels_wf(v.machine.channels),
        0 <= n <= endpoints.len(),
        forall|i: int| 0 <= i < endpoints.len() ==> (#[trigger] endpoints[i]).side < 2,
        id.side < 2,
    ensures
        channels_wf(v.receivers_set(endpoints, n, thread).machine.channels),
        v.receivers_set(endpoints, n, thread).end(id) is Some == v.end(id) is Some,
        v.end(id) matches Some(e) ==> (v.receivers_set(endpoints, n, thread).end(id) matches Some(f)
            && f.queue == e.queue && f.pending_caller == e.pending_caller && f.peer_closed
            == e.peer_closed && f.blocked_receiver == (if exists|i: int|
            0 <= i < n && #[trigger] endpoints[i] == id {
            thread
        } else {
            e.blocked_receiver
        })),
        v.receivers_set(endpoints, n, thread).cpus == v.cpus,
    decreases n,
{
    if n > 0 {
        law_a_waiter_is_registered_at_every_end(v, endpoints, n - 1, thread, id);
        let a = v.receivers_set(endpoints, n - 1, thread);
        let last = endpoints[n - 1];
        if let Some(e) = a.end(last) {
            let f = e.with_receiver(thread);
            lemma_end_of_with_end(a, last, f);
            let t = a.machine.channels;
            assert(t[last.channel as int]->0.wf());
            assert(e.wf());
            let other = if id != last {
                id
            } else {
                last.peer()
            };
            lemma_other_end(a, last, f, other);
        }
        assert((exists|i: int| 0 <= i < n && #[trigger] endpoints[i] == id) <==> (last == id || (
        exists|i: int| 0 <= i < n - 1 && #[trigger] endpoints[i] == id))) by {
            if exists|i: int| 0 <= i < n && #[trigger] endpoints[i] == id {
                let i = choose|i: int| 0 <= i < n && #[trigger] endpoints[i] == id;
                if i < n - 1 {
                    assert(endpoints[i] == id);
                }
            }
            if exists|i: int| 0 <= i < n - 1 && #[trigger] endpoints[i] == id {
                let i = choose|i: int| 0 <= i < n - 1 && #[trigger] endpoints[i] == id;
                assert(endpoints[i] == id);
            }
        }
    }
}

/// A server that replies and receives does both: its reply is queued for its
/// caller, and what it takes is the message in front at its own end, as it was
/// queued.
pub proof fn law_reply_receive_does_both(
    v: ExecView,
    w: ExecView,
    cpu: u32,
    on: EndpointId,
    m: MessageView,
    r: Step<Result<Message, KError>>,
)
    requires
        v.cpus.len() == MAX_CPUS,
        channels_wf(v.machine.channels),
        on.side < 2,
        v.end(on) is Some,
        v.running(cpu) is Some,
        v.reply_result(on) is Ok,
        m.wf(),
        reply_receive_step(v, w, cpu, on, m, r),
    ensures
        w.end(on.peer()) == v.replied(on, m).end(on.peer()),
        v.end(on)->0.queue.len() > 0 ==> {
            let e = v.end(on)->0;
            &&& r matches Step::Done(d)
            &&& d matches Ok(got)
            &&& got@.inline == e.queue[0].inline
            &&& got@.handles == e.queue[0].handles
            &&& got@.header == e.queue[0].header
            &&& w.end(on) matches Some(f)
            &&& f.queue.len() == e.queue.len() - 1
            &&& forall|k: int| 0 <= k < f.queue.len() ==> #[trigger] f.queue[k] == e.queue[k + 1]
        },
        v.end(on)->0.queue.len() == 0 && v.end(on)->0.peer_closed ==> (r matches Step::Done(d) && d
            == Err::<Message, _>(KError::PeerClosed)),
        v.end(on)->0.queue.len() == 0 && !v.end(on)->0.peer_closed ==> r is Park && (w.end(
            on,
        ) matches Some(f) && f.blocked_receiver == Some(v.running(cpu)->0.id)),
{
    let d = v.replied(on, m);
    let to = on.peer();
    assert(to != on);
    law_a_reply_is_queued_whole(v, on, m, on);
    assert(d.end(on) == v.end(on));
    let t = v.machine.channels;
    assert(t[on.channel as int]->0.wf());
    assert(d.cpus == v.cpus);
    lemma_replied_wf(v, on, m);
    let e = d.end(on)->0;
    lemma_end_of_with_end(d, on, e.dequeued());
    lemma_other_end(d, on, e.dequeued(), to);
    let f = e.with_receiver(Some(v.running(cpu)->0.id));
    lemma_end_of_with_end(d, on, f);
    lemma_other_end(d, on, f, to);
}

/// A reply keeps the channels sound.
proof fn lemma_replied_wf(v: ExecView, on: EndpointId, m: MessageView)
    requires
        channels_wf(v.machine.channels),
        on.side < 2,
        m.wf(),
    ensures
        channels_wf(v.replied(on, m).machine.channels),
{
    let to = on.peer();
    if let Some(e) = v.end(to) {
        let t = v.machine.channels;
        assert(t[to.channel as int]->0.wf());
        assert(e.wf());
        if let Some((_, txn)) = e.pending_caller {
            let f = e.enqueued(m.with_txn(txn)).with_caller(None);
            if !e.full() {
                assert forall|k: int| 0 <= k < f.queue.len() implies (#[trigger] f.queue[k]).wf() by {
                    if k < e.queue.len() {
                        assert(f.queue[k] == e.queue[k]);
                    }
                }
                lemma_other_end(v, to, f, on);
            }
        } else {
            let f = EndpointView { abandoned: false, ..e };
            lemma_other_end(v, to, f, on);
            let g = e.enqueued(m);
            if !e.full() {
                assert forall|k: int| 0 <= k < g.queue.len() implies (#[trigger] g.queue[k]).wf() by {
                    if k < e.queue.len() {
                        assert(g.queue[k] == e.queue[k]);
                    }
                }
                lemma_other_end(v, to, g, on);
            }
        }
    }
}

/// A dying process closes exactly the ends that owe a reply: those bound to an
/// object it held, whose other end has a caller waiting.
pub proof fn law_only_ends_that_owe_a_reply_are_closed(
    v: ExecView,
    cpu: u32,
    held: Seq<ObjectId>,
    k: int,
    id: EndpointId,
)
    requires
        k > 0,
    ensures
        owes_reply(v, id, held) <==> {
            &&& object_at(v.machine.channels, id) matches Some(o)
            &&& exists|i: int| 0 <= i < held.len() && #[trigger] held[i] == o
            &&& v.end(id.peer()) matches Some(e)
            &&& e.pending_caller is Some
        },
        closing(v, cpu, held, 0) == (v, 0nat),
        ({
            let (w, n) = closing(v, cpu, held, k - 1);
            let at = EndpointId {
                channel: ((k - 1) / 2) as usize,
                side: ((k - 1) % 2) as usize,
            };
            closing(v, cpu, held, k) == (if owes_reply(w, at, held) {
                (w.closed(cpu, at), n + 1)
            } else {
                (w, n)
            })
        }),
{
    if let Some(o) = object_at(v.machine.channels, id) {
        if held.contains(o) {
            let i = choose|i: int| 0 <= i < held.len() && held[i] == o;
            assert(held[i] == o);
        }
    }
}

/// Each part of the machine is replaced by itself: changing one table, the clock's
/// deadline or what a CPU is attributed to leaves every other as it was.
pub proof fn law_each_table_is_replaced_alone(
    v: ExecView,
    channels: crate::ipc::ChannelsView,
    ports: crate::port::PortsView,
    cpu: u32,
    cause: u64,
    deadline: Option<u64>,
    site: Site,
)
    requires
        v.cpus.len() == MAX_CPUS,
        v.local(cpu).wf(),
    ensures
        v.with_channels(channels).machine.channels == channels,
        v.with_channels(channels).machine.ports == v.machine.ports,
        v.with_channels(channels).machine.memory == v.machine.memory,
        v.with_channels(channels).machine.devices == v.machine.devices,
        v.with_channels(channels).machine.posted == v.machine.posted,
        v.with_channels(channels).cpus == v.cpus,
        v.with_ports(ports).machine.ports == ports,
        v.with_ports(ports).machine.channels == v.machine.channels,
        v.with_ports(ports).machine.memory == v.machine.memory,
        v.with_ports(ports).machine.devices == v.machine.devices,
        v.with_ports(ports).cpus == v.cpus,
        v.rerooted(cpu, cause).sched(cpu).cause == cause,
        v.rerooted(cpu, cause).sched(cpu).threads == v.sched(cpu).threads,
        v.rerooted(cpu, cause).machine == v.machine,
        v.rerooted_if(true, cpu, cause) == v.rerooted(cpu, cause),
        v.rerooted_if(false, cpu, cause) == v,
        v.sched(cpu).current matches Some(i) ==> (v.deadline_set(cpu, deadline).sched(
            cpu,
        ).threads[i as int] matches Some(t) && t.recv_deadline == deadline && t.id == v.sched(
            cpu,
        ).threads[i as int]->0.id),
        v.deadline_set(cpu, deadline).machine == v.machine,
        v.entered(cpu, site).cpus == v.cpus,
        v.entered(cpu, site).machine.channels == v.machine.channels,
        v.entered(cpu, site).machine.ports == v.machine.ports,
        v.left(cpu, site).cpus == v.cpus,
        v.left(cpu, site).machine == v.machine,
{
}

/// Closing an end wakes whoever is parked at the other: a receiver there, and a
/// caller that waits there for a reply, each ready to run if it is on this CPU.
pub proof fn law_closing_wakes_who_waits(
    v: ExecView,
    cpu: u32,
    endpoint: EndpointId,
    id: ThreadId,
    slot: usize,
)
    requires
        v.cpus.len() == MAX_CPUS,
        v.local(cpu).wf(),
        channels_wf(v.machine.channels),
        endpoint.side < 2,
        v.end(endpoint) is Some,
        v.end(endpoint.peer())->0.blocked_receiver == Some(id) || (v.end(
            endpoint.peer(),
        )->0.pending_caller matches Some((t, _)) && t == id),
        v.residence(cpu, id) == Residence::Here(slot),
    ensures
        v.closed(cpu, endpoint).sched(cpu).threads[slot as int] matches Some(t) && t.id == id
            && t.state == ThreadState::Ready,
{
    let to = endpoint.peer();
    let e = v.end(to)->0;
    let a = v.with_end(to, EndpointView { peer_closed: true, ..e });
    let caller = match e.pending_caller {
        Some((t, _)) => Some(t),
        None => None,
    };
    let none = Seq::<ThreadId>::empty();
    let ids = match (e.blocked_receiver, caller) {
        (Some(r), Some(c)) => none.push(r).push(c),
        (Some(r), None) => none.push(r),
        (None, Some(c)) => none.push(c),
        (None, None) => none,
    };
    assert(a.woken_all(cpu, none) == a);
    if let Some(r) = e.blocked_receiver {
        assert(none.push(r).drop_last() =~= none);
        assert(a.woken_all(cpu, none.push(r)) == a.woken(cpu, r));
        if let Some(c) = caller {
            assert(ids.drop_last() =~= none.push(r));
            assert(ids[0] == r && ids[1] == c);
        } else {
            assert(ids[0] == r);
        }
    } else if let Some(c) = caller {
        assert(ids.drop_last() =~= none);
        assert(ids[0] == c);
    }
    assert(v.closed(cpu, endpoint) == a.woken_all(cpu, ids));
    assert(ids.contains(id));
    crate::exec::laws::lemma_woken_all_readies(a, cpu, ids, id);
    slots::lemma_first(v.sched(cpu).threads, crate::sched::live_as(id));
    slots::lemma_first(a.woken_all(cpu, ids).sched(cpu).threads, crate::sched::live_as(id));
}

/// A callee keeps nothing of what it was lent: when the call whose loan is in
/// force is over, it has its own priority and its own cause again.
pub proof fn law_a_finished_call_takes_its_loan_back(
    v: ExecView,
    w: ExecView,
    cpu: u32,
    call: PendingCall,
    r: Result<Message, KError>,
    i: usize,
)
    requires
        v.cpus.len() == MAX_CPUS,
        v.local(cpu).wf(),
        call.caller < MAX_THREADS,
        call.callee == Some(i),
        i < MAX_THREADS,
        v.local(cpu).loans[i as int] matches Some(l) && l.txn == call.txn && (v.sched(
            cpu,
        ).threads[i as int] matches Some(t) && t.id == l.callee),
        resume_step(v, w, cpu, call, r),
    ensures
        w.local(cpu).loans[i as int] is None,
        w.sched(cpu).threads[i as int] matches Some(t) && t.id
            == v.local(cpu).loans[i as int]->0.callee && t.priority
            == v.local(cpu).loans[i as int]->0.priority && t.correlation
            == v.local(cpu).loans[i as int]->0.correlation,
{
    let u = call_over(v, cpu, call);
    assert(u.local(cpu).loans[i as int] is None);
}

/// A caller that is answered while its server goes on with the next request is
/// ready to run.
pub proof fn law_an_answered_caller_is_ready(
    v: ExecView,
    w: ExecView,
    cpu: u32,
    on: EndpointId,
    m: MessageView,
    r: Step<Result<Message, KError>>,
    id: ThreadId,
    slot: usize,
)
    requires
        v.cpus.len() == MAX_CPUS,
        v.local(cpu).wf(),
        channels_wf(v.machine.channels),
        on.side < 2,
        v.end(on) is Some,
        v.running(cpu) is Some,
        v.reply_result(on) == Ok::<_, KError>(Some(id)),
        v.residence(cpu, id) == Residence::Here(slot),
        v.end(on)->0.queue.len() > 0,
        reply_receive_step(v, w, cpu, on, m, r),
    ensures
        w.sched(cpu).threads[slot as int] matches Some(t) && t.id == id && t.state
            == ThreadState::Ready,
{
    let d = v.replied(on, m);
    law_a_reply_is_queued_whole(v, on, m, on);
    assert(d.end(on) == v.end(on));
    assert(d.residence(cpu, id) == v.residence(cpu, id));
    let s = v.sched(cpu);
    slots::lemma_first(s.threads, crate::sched::live_as(id));
    assert(crate::sched::live_as(id)(s.threads[s.slot_of(id)]));
}

/// Whoever waits is off the processor: a thread that parks, or hands its
/// processor over, is blocked and not queued, and the one that takes over runs.
pub proof fn law_whoever_waits_is_blocked(v: ExecView, cpu: u32, running: usize, target: usize)
    requires
        v.cpus.len() == MAX_CPUS,
        v.local(cpu).wf(),
        v.sched(cpu).switches < u64::MAX,
        v.sched(cpu).current == Some(running),
        v.sched(cpu).threads[running as int]->0.state != ThreadState::Exited,
        !v.sched(cpu).ready.contains(running),
        target != running,
        target < MAX_THREADS,
        v.sched(cpu).threads[target as int] matches Some(t) && t.state != ThreadState::Exited,
    ensures
        v.parked(cpu).sched(cpu).threads[running as int] matches Some(t) && t.state
            == ThreadState::Blocked && t.id == v.sched(cpu).threads[running as int]->0.id,
        !v.parked(cpu).sched(cpu).ready.contains(running),
        v.parked(cpu).sched(cpu).current != Some(running),
        v.parked(cpu).sched(cpu).switches == v.sched(cpu).switches + 1,
        v.parked(cpu).machine == v.machine,
        v.park_switch(cpu).from == Some(running),
        v.park_switch(cpu).to == v.parked(cpu).sched(cpu).current,
        v.handed_off(cpu, target).sched(cpu).threads[running as int] matches Some(t) && t.state
            == ThreadState::Blocked,
        v.handed_off(cpu, target).sched(cpu).threads[target as int] matches Some(t) && t.state
            == ThreadState::Running,
        v.handed_off(cpu, target).sched(cpu).current == Some(target),
        v.handed_off(cpu, target).sched(cpu).ready == v.sched(cpu).ready,
        v.handed_off(cpu, target).sched(cpu).switches == v.sched(cpu).switches + 1,
        v.handed_off(cpu, target).machine == v.machine,
        v.handoff_switch(cpu, target).from == Some(running),
        v.handoff_switch(cpu, target).to == Some(target),
        v.handoff_switch(cpu, target).resume matches Some(r) && r.space_root == v.sched(
            cpu,
        ).threads[target as int]->0.space_root,
{
    crate::sched::law_parking_stops_the_running_thread(
        v.sched(cpu),
        running,
        ThreadState::Blocked,
    );
}

/// A received message's cause is its receiver's from then on, where it has one.
pub proof fn law_a_receiver_adopts_the_cause(v: ExecView, cpu: u32, correlation: u64, slot: usize)
    requires
        v.cpus.len() == MAX_CPUS,
        v.local(cpu).wf(),
        v.sched(cpu).current == Some(slot),
    ensures
        correlation == 0 ==> v.adopting(cpu, correlation) == v,
        correlation != 0 ==> (v.adopting(cpu, correlation).sched(
            cpu,
        ).threads[slot as int] matches Some(t) && t.correlation == correlation && t.priority
            == v.sched(cpu).threads[slot as int]->0.priority && t.state == v.sched(
            cpu,
        ).threads[slot as int]->0.state) && v.adopting(cpu, correlation).sched(cpu).cause
            == correlation,
        v.adopting(cpu, correlation).machine == v.machine,
{
}

/// A machine starts with nothing in it: no channel, port, job, device or memory
/// object, nobody waiting, nothing posted, no wake counted and nobody asleep.
pub proof fn law_a_machine_starts_empty(k: int)
    requires
        k >= 0,
    ensures
        ({
            let m = crate::exec::MachineView::fresh();
            &&& k < m.channels.len() ==> m.channels[k] is None
            &&& k < m.ports.len() ==> m.ports[k] is None
            &&& k < m.jobs.len() ==> m.jobs[k] is None
            &&& k < m.devices.len() ==> m.devices[k] is None
            &&& k < m.memory.objects.len() ==> m.memory.objects[k] is None
            &&& k < m.memory.taken.len() ==> !m.memory.taken[k]
            &&& k < m.page_ins.len() ==> m.page_ins[k] is None
            &&& k < m.expired_callers.len() ==> m.expired_callers[k] is None
            &&& k < m.lifecycle.len() ==> m.lifecycle[k] is None
            &&& k < m.residents.len() ==> m.residents[k].0 == ThreadId::UNASSIGNED
            &&& m.waits.len() == 0 && m.posted.len() == 0
            &&& m.wake.events == 0 && m.sleeper is None && m.resumed_by is None
            &&& m.page_in_supervisor.misses == 0 && m.page_in_supervisor.escalations == 0
            &&& m.cache_budget.ordinary_in_use == 0 && m.cache_budget.writeback_in_use == 0
            &&& m.paging.bindings.len() == 0 && m.paging.waits.len() == 0
        }),
{
}

} // verus!
