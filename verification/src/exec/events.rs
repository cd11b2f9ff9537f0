//! What signals, address waits and page-ins do: who is told, who is woken, and
//! what stays as it was.
use vstd::prelude::*;
use crate::config::{MAX_BINDINGS, MAX_CPUS, MAX_PAGERS, MAX_PORTS, MAX_THREADS, MAX_WAITERS};
use crate::error::KError;
use crate::exec::messaging::lemma_end_of_with_end;
use crate::exec::paging::{acted_on, not_for, overdue, overdue_ids};
use crate::exec::ports::{
    drainers, lemma_signalled_frame, lemma_woken_frame, listening, port_wait_step, signalled_ports,
    Step,
};
use crate::exec::waiting::wait_step;
use crate::exec::{ExecView, PageInFlight, Posted, Residence};
use crate::ipc::channels_wf;
use crate::memory::{
    law_a_changed_object_is_the_only_one, law_a_memory_object_is_found_by_its_id, MemoryObjectView,
};
use crate::object::ObjectId;
use crate::port::{
    law_a_delivery_adds_to_its_binding, ports_wf, PortEvent, PortId, PortsView,
};
use crate::sched::{SchedView, Switch};
use crate::slots;
use crate::thread::{Thread, ThreadId, ThreadState};
use crate::wait::{on, WaitKey, Waiter};

verus! {

/// A signal reaches every port that listens for it and no other: each binding
/// of that source and signal has the edges and is asserted, whoever waited on
/// its port waits no longer, and every other binding and port stays.
pub proof fn law_a_signal_reaches_every_listener(
    ports: PortsView,
    source: u64,
    signal: u8,
    edges: u32,
    i: int,
    k: int,
)
    requires
        ports_wf(ports),
        0 <= i < MAX_PORTS,
        0 <= k < MAX_BINDINGS,
    ensures
        signalled_ports(ports, source, signal, edges).len() == MAX_PORTS,
        ports[i] is None ==> signalled_ports(ports, source, signal, edges)[i] is None,
        ports[i] matches Some(p) ==> (signalled_ports(ports, source, signal, edges)[i] matches Some(
            q,
        ) && {
            &&& q.object == p.object
            &&& match p.bindings[k] {
                Some(b) => if b.source == source && b.signal == signal {
                    &&& q.bindings[k] matches Some(c)
                    &&& c.source == source && c.signal == signal && c.asserted
                    &&& b.pending + edges <= u32::MAX ==> c.pending == b.pending + edges
                    &&& b.pending + edges > u32::MAX ==> c.pending == u32::MAX
                    &&& q.blocked_drainer is None
                } else {
                    q.bindings[k] == p.bindings[k]
                },
                None => q.bindings[k] is None,
            }
            &&& (forall|j: int|
                0 <= j < MAX_BINDINGS ==> !(#[trigger] p.bindings[j] matches Some(b) && b.source
                    == source && b.signal == signal)) ==> q == p
        }),
{
    if let Some(p) = ports[i] {
        law_a_delivery_adds_to_its_binding(p, source, signal, edges, k);
    }
}

/// Who waits on a port that listens is woken by the signal: a thread is among
/// those woken exactly when it waits on such a port.
pub proof fn law_a_signal_wakes_who_waits(
    ports: PortsView,
    source: u64,
    signal: u8,
    id: ThreadId,
)
    ensures
        drainers(ports, source, signal).contains(id) <==> exists|i: int|
            0 <= i < ports.len() && (#[trigger] ports[i] matches Some(p) && p.blocked_drainer
                == Some(id) && p.listens(source, signal)),
    decreases ports.len(),
{
    let all = drainers(ports, source, signal);
    if ports.len() > 0 {
        let rest = ports.drop_last();
        let d = drainers(rest, source, signal);
        law_a_signal_wakes_who_waits(rest, source, signal, id);
        if all.contains(id) {
            let k = choose|k: int| 0 <= k < all.len() && all[k] == id;
            if k < d.len() {
                assert(d[k] == id);
                assert(d.contains(id));
                let i = choose|i: int|
                    0 <= i < rest.len() && (#[trigger] rest[i] matches Some(p) && p.blocked_drainer
                        == Some(id) && p.listens(source, signal));
                assert(ports[i] == rest[i]);
            } else {
                assert(ports[ports.len() - 1] matches Some(p) && p.blocked_drainer == Some(id));
            }
        }
        if exists|i: int|
            0 <= i < ports.len() && (#[trigger] ports[i] matches Some(p) && p.blocked_drainer
                == Some(id) && p.listens(source, signal)) {
            let i = choose|i: int|
                0 <= i < ports.len() && (#[trigger] ports[i] matches Some(p) && p.blocked_drainer
                    == Some(id) && p.listens(source, signal));
            if i < rest.len() {
                assert(rest[i] == ports[i]);
                let k = choose|k: int| 0 <= k < d.len() && d[k] == id;
                assert(all[k] == id);
            } else {
                assert(all.last() == id);
            }
        }
    }
}

/// Signalling changes the ports, and wakes whoever waited on them; channels,
/// waiters, devices and memory are as they were.
pub proof fn law_a_signal_touches_ports_and_waiters(
    v: ExecView,
    cpu: u32,
    source: u64,
    signal: u8,
    edges: u32,
)
    requires
        v.cpus.len() == MAX_CPUS,
    ensures
        v.signalled(cpu, source, signal, edges).machine.ports == signalled_ports(
            v.machine.ports,
            source,
            signal,
            edges,
        ),
        v.signalled(cpu, source, signal, edges).cpus == v.woken_all(
            cpu,
            drainers(v.machine.ports, source, signal),
        ).cpus,
        v.signalled(cpu, source, signal, edges).machine.channels == v.machine.channels,
        v.signalled(cpu, source, signal, edges).machine.waits == v.machine.waits,
        v.signalled(cpu, source, signal, edges).machine.devices == v.machine.devices,
        v.signalled(cpu, source, signal, edges).machine.memory == v.machine.memory,
        v.listeners(source, signal) == 0 <==> forall|i: int|
            0 <= i < v.machine.ports.len() ==> !(#[trigger] v.machine.ports[i] matches Some(p)
                && p.listens(source, signal)),
{
    lemma_signalled_frame(v, cpu, source, signal, edges);
    let ports = v.machine.ports;
    let f = listening(source, signal);
    if v.listeners(source, signal) == 0 {
        assert forall|i: int| 0 <= i < ports.len() implies !(#[trigger] ports[i] matches Some(p)
            && p.listens(source, signal)) by {
            if f(ports[i]) {
                slots::lemma_count_positive(ports, f, i);
            }
        }
    } else if forall|i: int|
        0 <= i < ports.len() ==> !(#[trigger] ports[i] matches Some(p) && p.listens(
            source,
            signal,
        )) {
        assert forall|i: int| 0 <= i < ports.len() implies !f(#[trigger] ports[i]) by {}
        slots::lemma_count_zero(ports, f);
    }
}

/// Waiting on a port takes the first asserted binding's edges, all of them, or
/// waits there until there are some.
pub proof fn law_a_port_wait_takes_an_event_or_waits(
    v: ExecView,
    w: ExecView,
    cpu: u32,
    port: PortId,
    r: Step<Result<PortEvent, KError>>,
    other: int,
)
    requires
        v.cpus.len() == MAX_CPUS,
        ports_wf(v.machine.ports),
        0 <= other < MAX_PORTS,
        other != port.0,
        port_wait_step(v, w, cpu, port, r),
    ensures
        w.machine.ports[other] == v.machine.ports[other],
        port.0 >= MAX_PORTS || v.machine.ports[port.0 as int] is None ==> (r matches Step::Done(d)
            && d == Err::<PortEvent, _>(KError::BadHandle)),
        port.0 < MAX_PORTS ==> (v.machine.ports[port.0 as int] matches Some(p) ==> {
            let q = w.machine.ports[port.0 as int]->0;
            &&& forall|i: int|
                0 <= i < MAX_BINDINGS && (#[trigger] p.bindings[i] matches Some(b) && b.asserted)
                    && (forall|j: int|
                    0 <= j < i ==> (#[trigger] p.bindings[j] matches Some(c) ==> !c.asserted)) ==> {
                    &&& r matches Step::Done(d)
                    &&& d matches Ok(e)
                    &&& e.source == p.bindings[i]->0.source
                    &&& e.signal == p.bindings[i]->0.signal
                    &&& e.pending == p.bindings[i]->0.pending
                    &&& q.bindings[i] matches Some(c)
                    &&& !c.asserted && c.pending == 0
                    &&& forall|k: int|
                        0 <= k < MAX_BINDINGS && k != i ==> #[trigger] q.bindings[k]
                            == p.bindings[k]
                }
            &&& (forall|i: int|
                0 <= i < MAX_BINDINGS ==> (#[trigger] p.bindings[i] matches Some(b)
                    ==> !b.asserted)) && v.running(cpu) is Some ==> {
                &&& r is Park
                &&& q.blocked_drainer == Some(v.running(cpu)->0.id)
                &&& q.bindings == p.bindings
            }
        }),
{
    if port.0 < MAX_PORTS {
        if let Some(p) = v.machine.ports[port.0 as int] {
            let f = crate::port::asserted();
            slots::lemma_first(p.bindings, f);
            assert forall|i: int|
                0 <= i < MAX_BINDINGS && (#[trigger] p.bindings[i] matches Some(b) && b.asserted)
                    && (forall|j: int|
                    0 <= j < i ==> (#[trigger] p.bindings[j] matches Some(c)
                        ==> !c.asserted)) implies p.ready() == i by {
                assert forall|j: int| 0 <= j < i implies !f(#[trigger] p.bindings[j]) by {}
                slots::lemma_first_is(p.bindings, f, i);
            }
            if p.has_event() {
                assert(f(p.bindings[p.ready()]));
            }
        }
    }
}

/// A thread waits on an address only while the word there is what it expects,
/// and is then enrolled under that address behind everyone; otherwise it is told
/// and nobody is enrolled.
pub proof fn law_a_wait_checks_the_word(
    v: ExecView,
    w: ExecView,
    cpu: u32,
    waiter: Waiter,
    expected: u64,
    word: Result<u64, KError>,
    r: Result<Switch, KError>,
)
    requires
        v.cpus.len() == MAX_CPUS,
        wait_step(v, w, cpu, waiter, expected, word, r),
    ensures
        word matches Err(e) ==> r == Err::<Switch, _>(e),
        word matches Ok(x) ==> {
            &&& x != expected ==> r == Err::<Switch, _>(KError::WouldBlock)
            &&& x == expected && v.machine.waits.len() == MAX_WAITERS ==> r == Err::<Switch, _>(
                KError::OutOfMemory,
            )
            &&& x == expected && v.machine.waits.len() != MAX_WAITERS ==> r is Ok
        },
        r is Ok ==> w.machine.waits == v.machine.waits.push(waiter),
        r is Err ==> w.machine.waits == v.machine.waits && w.sched(cpu) == v.sched(cpu),
{
}

/// Waking takes those enrolled on the key, the longest waiting first, at most as
/// many as asked, and leaves everyone enrolled on another key.
pub proof fn law_waking_takes_from_its_own_key(
    v: ExecView,
    cpu: u32,
    key: WaitKey,
    count: nat,
    fuel: nat,
    other: Waiter,
)
    requires
        v.cpus.len() == MAX_CPUS,
        other.key != key,
    ensures
        v.waked(cpu, key, count, fuel).1 <= count,
        v.waked(cpu, key, count, fuel).0.cpus.len() == MAX_CPUS,
        v.waked(cpu, key, count, fuel).0.machine.waits.len() <= v.machine.waits.len(),
        v.machine.waits.contains(other) ==> v.waked(cpu, key, count, fuel).0.machine.waits.contains(
            other,
        ),
        v.waked(cpu, key, count, fuel).0.machine.channels == v.machine.channels,
        v.waked(cpu, key, count, fuel).0.machine.ports == v.machine.ports,
        count == 0 ==> v.waked(cpu, key, count, fuel) == (v, 0nat),
        fuel >= v.machine.waits.len() && v.waked(cpu, key, count, fuel).1 < count ==> forall|k: int|
            0 <= k < v.waked(cpu, key, count, fuel).0.machine.waits.len() ==> (
            #[trigger] v.waked(cpu, key, count, fuel).0.machine.waits[k]).key != key,
    decreases fuel,
{
    let waits = v.machine.waits;
    let p = on(key);
    slots::lemma_first(waits, p);
    let at = slots::first(waits, p);
    if count == 0 || fuel == 0 || at >= waits.len() {
        if count > 0 && fuel >= waits.len() {
            assert forall|k: int| 0 <= k < waits.len() implies (#[trigger] waits[k]).key != key by {
                assert(!p(waits[k]));
            }
        }
    } else {
        assert(p(waits[at]));
        let id = waits[at].thread;
        let a = v.with_waits(waits.remove(at));
        if waits.contains(other) {
            let k = choose|k: int| 0 <= k < waits.len() && waits[k] == other;
            assert(k != at);
            if k < at {
                assert(waits.remove(at)[k] == other);
            } else {
                assert(waits.remove(at)[k - 1] == other);
            }
        }
        if a.residence(cpu, id) == Residence::Gone {
            law_waking_takes_from_its_own_key(a, cpu, key, count, (fuel - 1) as nat, other);
        } else {
            lemma_woken_frame(a, cpu, id);
            law_waking_takes_from_its_own_key(
                a.woken(cpu, id),
                cpu,
                key,
                (count - 1) as nat,
                (fuel - 1) as nat,
                other,
            );
        }
    }
}

/// The longest waiting of those on a key is the first one woken: one that is on
/// this CPU is ready afterwards.
pub proof fn law_the_longest_waiting_is_woken_first(
    v: ExecView,
    cpu: u32,
    key: WaitKey,
    at: int,
    slot: usize,
)
    requires
        v.cpus.len() == MAX_CPUS,
        v.local(cpu).wf(),
        0 <= at < v.machine.waits.len(),
        v.machine.waits[at].key == key,
        forall|k: int| 0 <= k < at ==> (#[trigger] v.machine.waits[k]).key != key,
        v.residence(cpu, v.machine.waits[at].thread) == Residence::Here(slot),
    ensures
        v.waked(cpu, key, 1, v.machine.waits.len()).1 == 1,
        v.waked(cpu, key, 1, v.machine.waits.len()).0.machine.waits == v.machine.waits.remove(at),
        v.waked(cpu, key, 1, v.machine.waits.len()).0.sched(cpu).threads[slot as int] matches Some(t)
            && t.id == v.machine.waits[at].thread && t.state == ThreadState::Ready,
{
    let waits = v.machine.waits;
    let p = on(key);
    assert forall|k: int| 0 <= k < at implies !p(#[trigger] waits[k]) by {
        assert(waits[k].key != key);
    }
    slots::lemma_first_is(waits, p, at);
    let id = waits[at].thread;
    let a = v.with_waits(waits.remove(at));
    assert(a.sched(cpu) == v.sched(cpu));
    assert(a.residence(cpu, id) == v.residence(cpu, id));
    slots::lemma_first(v.sched(cpu).threads, crate::sched::live_as(id));
    assert(crate::sched::live_as(id)(v.sched(cpu).threads[v.sched(cpu).slot_of(id)]));
    let b = a.woken(cpu, id);
    lemma_woken_frame(a, cpu, id);
    let rest = b.waked(cpu, key, 0, (waits.len() - 1) as nat);
    assert(rest == (b, 0nat));
    assert(v.waked(cpu, key, 1, waits.len()) == (b, 1nat));
}

/// Late receivers are those blocked past their deadline, and only those.
pub proof fn law_only_late_receivers_are_woken(threads: Seq<Option<Thread>>, now: u64, id: ThreadId)
    ensures
        overdue_ids(threads, now).contains(id) <==> exists|i: int|
            0 <= i < threads.len() && (#[trigger] threads[i] matches Some(t) && t.id == id && t.state
                == ThreadState::Blocked && (t.recv_deadline matches Some(at) && now >= at)),
    decreases threads.len(),
{
    let all = overdue_ids(threads, now);
    if threads.len() > 0 {
        let rest = threads.drop_last();
        let d = overdue_ids(rest, now);
        law_only_late_receivers_are_woken(rest, now, id);
        if all.contains(id) {
            let k = choose|k: int| 0 <= k < all.len() && all[k] == id;
            if k < d.len() {
                assert(d[k] == id);
                assert(d.contains(id));
                let i = choose|i: int|
                    0 <= i < rest.len() && (#[trigger] rest[i] matches Some(t) && t.id == id
                        && t.state == ThreadState::Blocked && (t.recv_deadline matches Some(at)
                        && now >= at));
                assert(threads[i] == rest[i]);
            } else {
                let last = threads[threads.len() - 1];
                assert(overdue(now)(last));
            }
        }
        if exists|i: int|
            0 <= i < threads.len() && (#[trigger] threads[i] matches Some(t) && t.id == id && t.state
                == ThreadState::Blocked && (t.recv_deadline matches Some(at) && now >= at)) {
            let i = choose|i: int|
                0 <= i < threads.len() && (#[trigger] threads[i] matches Some(t) && t.id == id
                    && t.state == ThreadState::Blocked && (t.recv_deadline matches Some(at) && now
                    >= at));
            if i < rest.len() {
                assert(rest[i] == threads[i]);
                let k = choose|k: int| 0 <= k < d.len() && d[k] == id;
                assert(all[k] == id);
            } else {
                assert(all.last() == id);
            }
        }
    }
}

/// A page-in in flight is remembered as it was sent, in a place that was free,
/// and forgotten for the thread it was for; no other is touched.
pub proof fn law_a_page_in_is_remembered_until_it_ends(
    v: ExecView,
    f: PageInFlight,
    faulter: ThreadId,
    k: int,
)
    requires
        v.machine.page_ins.len() == MAX_PAGERS,
        0 <= k < MAX_PAGERS,
    ensures
        v.page_in_vacancy() < MAX_PAGERS ==> {
            let w = v.page_in_begun(f);
            &&& v.machine.page_ins[v.page_in_vacancy()] is None
            &&& w.machine.page_ins[v.page_in_vacancy()] matches Some(g) && g.faulter == f.faulter
                && g.from == f.from && g.object == f.object && g.offset == f.offset
            &&& k != v.page_in_vacancy() ==> w.machine.page_ins[k] == v.machine.page_ins[k]
        },
        v.page_in_vacancy() == MAX_PAGERS ==> v.machine.page_ins[k] is Some,
        v.page_in_ended(faulter).machine.page_ins.len() == MAX_PAGERS,
        v.machine.page_ins[k] matches Some(g) ==> v.page_in_ended(faulter).machine.page_ins[k] == (
        if g.faulter == faulter {
            None
        } else {
            Some(g)
        }),
        v.machine.page_ins[k] is None ==> v.page_in_ended(faulter).machine.page_ins[k] is None,
        v.page_in_ended(faulter).cpus == v.cpus,
        v.page_in_ended(faulter).machine.channels == v.machine.channels,
{
    let free = slots::free::<PageInFlight>();
    slots::lemma_first(v.machine.page_ins, free);
    if v.page_in_vacancy() == MAX_PAGERS {
        assert(!free(v.machine.page_ins[k]));
    }
}

/// A page-in that is given up on counts as a miss, its object is faulted, its
/// call is no longer waited for, and every other page-in stays in flight.
pub proof fn law_a_given_up_page_in_faults_its_object(
    v: ExecView,
    cpu: u32,
    i: int,
    k: int,
    other: ObjectId,
)
    requires
        v.cpus.len() == MAX_CPUS,
        channels_wf(v.machine.channels),
        v.machine.memory.wf(),
        v.machine.page_ins.len() == MAX_PAGERS,
        0 <= i < MAX_PAGERS,
        0 <= k < MAX_PAGERS,
        k != i,
        v.machine.page_ins[i] matches Some(f) && f.from.side < 2,
        v.machine.page_in_supervisor.misses < u32::MAX,
        other != v.machine.page_ins[i]->0.object,
    ensures
        ({
            let f = v.machine.page_ins[i]->0;
            let w = v.page_in_failed(cpu, i);
            &&& w.machine.page_ins[i] is None
            &&& w.machine.page_ins[k] == v.machine.page_ins[k]
            &&& w.machine.page_in_supervisor.misses == v.machine.page_in_supervisor.misses + 1
            &&& w.end(f.from) matches Some(e) ==> e.pending_caller is None
            &&& v.stall_record(i).object == f.object
            &&& v.stall_record(i).offset == f.offset
            &&& v.stall_record(i).faulter == f.faulter
            &&& v.machine.memory.find(f.object) matches Some(o) ==> (w.machine.memory.find(
                f.object,
            ) matches Some(p) && p.faulted && p.holders == o.holders && p.cache == o.cache)
            &&& w.machine.memory.find(other) == v.machine.memory.find(other)
        }),
{
    let f = v.machine.page_ins[i]->0;
    let a = v.with_page_ins(v.machine.page_ins.update(i, None));
    if let Some(e) = a.end(f.from) {
        lemma_end_of_with_end(a, f.from, e.aborted());
    }
    let b = a.call_aborted(f.from);
    let mem = v.machine.memory;
    if let Some(o) = mem.find(f.object) {
        let faulted = MemoryObjectView { faulted: true, ..o };
        law_a_memory_object_is_found_by_its_id(mem, f.object);
        law_a_changed_object_is_the_only_one(mem, f.object, faulted, other);
    }
}

/// Draining the box acts on every wakeup for this CPU and keeps every other one;
/// a thread that no wakeup is for is not touched.
pub proof fn law_draining_keeps_what_is_for_others(v: ExecView, cpu: u32, p: Posted)
    requires
        v.cpus.len() == MAX_CPUS,
    ensures
        v.drained(cpu).machine.posted.contains(p) <==> v.machine.posted.contains(p) && p.cpu != cpu,
        v.drained(cpu).machine.channels == v.machine.channels,
        v.drained(cpu).machine.ports == v.machine.ports,
{
    let posted = v.machine.posted;
    let left = posted.filter(not_for(cpu));
    if left.contains(p) {
        let j = choose|j: int| 0 <= j < left.len() && left[j] == p;
        posted.lemma_filter_pred(not_for(cpu), j);
        posted.lemma_filter_contains_rev(not_for(cpu), p);
    }
    if posted.contains(p) && p.cpu != cpu {
        let j = choose|j: int| 0 <= j < posted.len() && posted[j] == p;
        assert(not_for(cpu)(posted[j]));
        posted.lemma_filter_contains(not_for(cpu), j);
    }
}

/// A thread that no posted wakeup is for stays as it is.
pub proof fn law_a_wakeup_wakes_nobody_else(
    s: SchedView,
    cpu: u32,
    posted: Seq<Posted>,
    n: int,
    slot: usize,
)
    requires
        s.threads.len() == MAX_THREADS,
        slot < MAX_THREADS,
        0 <= n <= posted.len(),
        forall|k: int|
            0 <= k < posted.len() && (#[trigger] posted[k]).cpu == cpu && posted[k].slot == slot ==> (
            s.threads[slot as int] matches Some(t) ==> t.id != posted[k].id),
    ensures
        acted_on(s, cpu, posted, n).threads.len() == MAX_THREADS,
        acted_on(s, cpu, posted, n).threads[slot as int] == s.threads[slot as int],
        acted_on(s, cpu, posted, n).current == s.current,
    decreases n,
{
    if n > 0 {
        law_a_wakeup_wakes_nobody_else(s, cpu, posted, n - 1, slot);
        assert(posted[n - 1].cpu == cpu && posted[n - 1].slot == slot ==> (
        s.threads[slot as int] matches Some(t) ==> t.id != posted[n - 1].id));
    }
}

/// Every page-in in flight is given up on, each told once and in order.
pub proof fn law_every_stalled_page_in_is_given_up_on(v: ExecView, cpu: u32, k: int)
    requires
        k > 0,
    ensures
        ({
            let (w, list) = v.stalled(cpu, k - 1);
            let (x, more) = v.stalled(cpu, k);
            &&& w.machine.page_ins[k - 1] is Some ==> x == w.page_in_failed(cpu, k - 1) && more.len()
                == list.len() + 1 && more.drop_last() == list && more.last().object
                == w.machine.page_ins[k - 1]->0.object && more.last().offset
                == w.machine.page_ins[k - 1]->0.offset && more.last().faulter
                == w.machine.page_ins[k - 1]->0.faulter
            &&& w.machine.page_ins[k - 1] is None ==> x == w && more == list
        }),
        v.stalled(cpu, 0).0 == v,
        v.stalled(cpu, 0).1.len() == 0,
{
    let (w, list) = v.stalled(cpu, k - 1);
    if w.machine.page_ins[k - 1] is Some {
        assert(v.stalled(cpu, k).1.drop_last() =~= list);
    }
}

} // verus!
