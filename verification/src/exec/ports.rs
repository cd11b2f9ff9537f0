//! Event delivery: signals fan out to the ports bound to them, and waiting
//! drains one coalesced event or parks.
use vstd::prelude::*;
use crate::config::{MAX_CPUS, MAX_PORTS};
use crate::error::KError;
use crate::exec::mint::lemma_unbound;
use crate::exec::{ExecView, Executive, MachineView};
use crate::object::ObjectId;
use crate::occupancy::Site;
use crate::port::{known_by, port_at, port_vacancy, PortEvent, PortId, PortView, PortsView};
use crate::sched::Switch;
use crate::slots;
use crate::thread::ThreadId;

verus! {

/// What a step that may wait comes to: an answer, or a switch away after which
/// the thread resumes what it was in.
pub enum Step<T> {
    Done(T),
    Park(Switch),
}

/// The predicate of a port bound to `(source, signal)`.
pub open spec fn listening(source: u64, signal: u8) -> spec_fn(Option<PortView>) -> bool {
    |o: Option<PortView>| o matches Some(p) && p.listens(source, signal)
}

/// The ports after `edges` edges from `(source, signal)`: every port bound to
/// it has them and nobody waits there any more.
pub open spec fn signalled_ports(
    ports: PortsView,
    source: u64,
    signal: u8,
    edges: u32,
) -> PortsView {
    Seq::new(ports.len(), |i: int| signalled_port(ports[i], source, signal, edges))
}

pub open spec fn signalled_port(
    port: Option<PortView>,
    source: u64,
    signal: u8,
    edges: u32,
) -> Option<PortView> {
    match port {
        Some(p) => if p.listens(source, signal) {
            Some(
                PortView { blocked_drainer: None, ..p.delivered(source, signal, edges) },
            )
        } else {
            Some(p)
        },
        None => None,
    }
}

/// The threads waiting on the ports bound to `(source, signal)`, in port order.
pub open spec fn drainers(ports: PortsView, source: u64, signal: u8) -> Seq<ThreadId>
    decreases ports.len(),
{
    if ports.len() == 0 {
        Seq::empty()
    } else {
        let before = drainers(ports.drop_last(), source, signal);
        if listening(source, signal)(ports.last()) && ports.last()->0.blocked_drainer is Some {
            before.push(ports.last()->0.blocked_drainer->0)
        } else {
            before
        }
    }
}

impl ExecView {
    /// The executive after `edges` edges from `(source, signal)`: delivered to
    /// every port bound to it, and whoever waited there made runnable.
    pub open spec fn signalled(self, cpu: u32, source: u64, signal: u8, edges: u32) -> ExecView {
        self.woken_all(cpu, drainers(self.machine.ports, source, signal)).with_ports(
            signalled_ports(self.machine.ports, source, signal, edges),
        )
    }

    /// How many ports are bound to `(source, signal)`.
    pub open spec fn listeners(self, source: u64, signal: u8) -> nat {
        slots::count(self.machine.ports, listening(source, signal))
    }

    /// With port `id`, which exists, replaced.
    pub open spec fn with_port(self, id: PortId, p: PortView) -> ExecView {
        self.with_ports(self.machine.ports.update(id.0 as int, Some(p)))
    }
}

/// Waking a thread neither reads nor writes the ports.
pub proof fn lemma_woken_keeps_ports(v: ExecView, cpu: u32, id: ThreadId, ports: PortsView)
    ensures
        v.with_ports(ports).woken(cpu, id) == v.woken(cpu, id).with_ports(ports),
        v.woken(cpu, id).machine.ports == v.machine.ports,
{
    assert(v.with_ports(ports).woken(cpu, id) =~= v.woken(cpu, id).with_ports(ports));
}

/// Waking threads leaves every table but the wakeup box alone.
pub proof fn lemma_woken_all_frame(v: ExecView, cpu: u32, ids: Seq<ThreadId>)
    requires
        v.cpus.len() == MAX_CPUS,
    ensures
        v.woken_all(cpu, ids).machine == (MachineView {
            posted: v.woken_all(cpu, ids).machine.posted,
            ..v.machine
        }),
        v.woken_all(cpu, ids).sched(cpu).switches == v.sched(cpu).switches,
        v.woken_all(cpu, ids).sched(cpu).current == v.sched(cpu).current,
        v.woken_all(cpu, ids).cpus.len() == v.cpus.len(),
    decreases ids.len(),
{
    if ids.len() > 0 {
        lemma_woken_all_frame(v, cpu, ids.drop_last());
        lemma_woken_frame(v.woken_all(cpu, ids.drop_last()), cpu, ids.last());
    }
}

/// Waking a thread leaves every table but the wakeup box alone.
pub proof fn lemma_woken_frame(v: ExecView, cpu: u32, id: ThreadId)
    requires
        v.cpus.len() == MAX_CPUS,
    ensures
        v.woken(cpu, id).machine == (MachineView {
            posted: v.woken(cpu, id).machine.posted,
            ..v.machine
        }),
        v.woken(cpu, id).sched(cpu).switches == v.sched(cpu).switches,
        v.woken(cpu, id).sched(cpu).current == v.sched(cpu).current,
        v.woken(cpu, id).cpus.len() == v.cpus.len(),
{
}

/// Signalling touches only the ports, the wakeup box and the ready queue.
pub proof fn lemma_signalled_frame(v: ExecView, cpu: u32, source: u64, signal: u8, edges: u32)
    requires
        v.cpus.len() == MAX_CPUS,
    ensures
        v.signalled(cpu, source, signal, edges).machine == (MachineView {
            posted: v.signalled(cpu, source, signal, edges).machine.posted,
            ports: signalled_ports(v.machine.ports, source, signal, edges),
            ..v.machine
        }),
        v.signalled(cpu, source, signal, edges).cpus.len() == MAX_CPUS,
        v.signalled(cpu, source, signal, edges).sched(cpu).switches == v.sched(cpu).switches,
        v.signalled(cpu, source, signal, edges).sched(cpu).current == v.sched(cpu).current,
{
    lemma_woken_all_frame(v, cpu, drainers(v.machine.ports, source, signal));
}

impl Executive {
    /// Creates an async event-delivery port.
    pub fn port_create(&mut self) -> (r: Result<PortId, KError>)
        requires
            old(self).wf(),
        ensures
            final(self).wf(),
            ({
                let ports = old(self)@.machine.ports;
                match r {
                    Ok(id) => {
                        &&& id.0 == port_vacancy(ports)
                        &&& id.0 < MAX_PORTS
                        &&& final(self)@ == old(self)@.with_port(id, PortView::fresh())
                    },
                    Err(e) => {
                        &&& e == KError::OutOfMemory
                        &&& port_vacancy(ports) == MAX_PORTS
                        &&& final(self)@ == old(self)@
                    },
                }
            }),
    {
        let r = self.machine.ports.create();
        assert(self@ =~= old(self)@.with_ports(self.machine.ports@));
        r
    }

    /// Creates a port and gives it a freshly minted object id. Nobody outside the
    /// kernel chooses one.
    pub fn port_create_with_object(&mut self) -> (r: Result<(PortId, ObjectId), KError>)
        requires
            old(self).wf(),
        ensures
            final(self).wf(),
            ({
                let ports = old(self)@.machine.ports;
                let id = ObjectId(old(self)@.machine.next_minted());
                if port_vacancy(ports) == MAX_PORTS || id.0 == u32::MAX {
                    &&& r == Err::<(PortId, ObjectId), _>(KError::OutOfMemory)
                    &&& final(self)@ == old(self)@
                } else {
                    let port = PortId(port_vacancy(ports) as usize);
                    &&& r == Ok::<_, KError>((port, id))
                    &&& final(self)@ == old(self)@.with_minted(id.0).with_port(
                        port,
                        PortView { object: Some(id), ..PortView::fresh() },
                    )
                }
            }),
    {
        let ghost v = self@;
        let id: u32 = self.unbound_id(self.machine.minted);
        if id == u32::MAX {
            return Err(KError::OutOfMemory);
        }
        proof {
            lemma_unbound(v.machine, v.machine.minted);
            slots::lemma_first(v.machine.ports, slots::free::<PortView>());
        }
        let made = self.machine.ports.create_with_object(ObjectId(id));
        assert(self@ =~= v.with_ports(self.machine.ports@));
        match made {
            Err(e) => Err(e),
            Ok(port) => {
                self.set_minted(id);
                assert(self@ =~= v.with_minted(id).with_ports(self.machine.ports@));
                Ok((port, ObjectId(id)))
            },
        }
    }

    /// Binds `port` to the object it is addressed by.
    pub fn bind_port_object(&mut self, port: PortId, id: ObjectId)
        requires
            old(self).wf(),
        ensures
            final(self).wf(),
            final(self)@ == match port_at(old(self)@.machine.ports, port) {
                Some(p) => old(self)@.with_port(port, PortView { object: Some(id), ..p }),
                None => old(self)@,
            },
    {
        self.machine.ports.set_port_object(port, id);
        assert(self@ =~= old(self)@.with_ports(self.machine.ports@));
    }

    /// Resolves a port object back to its port.
    pub fn port_of_object(&self, id: ObjectId) -> (r: Option<PortId>)
        requires
            self.wf(),
        ensures
            match r {
                Some(p) => p.0 == slots::first(self@.machine.ports, known_by(id)) && p.0
                    < MAX_PORTS,
                None => slots::first(self@.machine.ports, known_by(id)) == MAX_PORTS,
            },
    {
        self.machine.ports.port_of_object(id)
    }

    /// Preallocates a `(source, signal)` binding on `port`.
    pub fn port_bind(&mut self, port: PortId, source: u64, signal: u8) -> (r: Result<(), KError>)
        requires
            old(self).wf(),
        ensures
            final(self).wf(),
            match port_at(old(self)@.machine.ports, port) {
                None => r == Err::<(), _>(KError::BadHandle) && final(self)@ == old(self)@,
                Some(p) => if p.listens(source, signal) {
                    r == Err::<(), _>(KError::Protocol) && final(self)@ == old(self)@
                } else if p.vacancy() == p.bindings.len() {
                    r == Err::<(), _>(KError::OutOfMemory) && final(self)@ == old(self)@
                } else {
                    &&& r is Ok
                    &&& final(self)@ == old(self)@.with_port(port, p.with_binding(source, signal))
                },
            },
    {
        let ghost ports = self@.machine.ports;
        let mut r: Result<(), KError> = Err(KError::BadHandle);
        if let Some(p) = self.machine.ports.port_mut(port) {
            r = p.bind(source, signal);
        }
        proof {
            if port_at(ports, port) is Some {
                assert(ports.update(port.0 as int, ports[port.0 as int]) =~= ports);
            }
            assert(self@ =~= old(self)@.with_ports(self.machine.ports@));
            assert(old(self)@.with_ports(ports) =~= old(self)@);
        }
        r
    }

    /// Signals `edges` edges on `(source, signal)`, fanning out to every port
    /// bound to it: edges coalesce onto the slot, and a drainer blocked on the
    /// port is woken without a handoff. Returns how many ports were reached.
    pub fn port_signal(&mut self, cpu: u32, source: u64, signal: u8, edges: u32) -> (n: usize)
        requires
            old(self).wf(),
        ensures
            final(self).wf(),
            final(self)@ == old(self)@.signalled(cpu, source, signal, edges),
            n == old(self)@.listeners(source, signal),
    {
        let ghost v = self@;
        let ghost ports = v.machine.ports;
        let ghost done = signalled_ports(ports, source, signal, edges);
        let mut n: usize = 0;
        let mut i: usize = 0;
        proof {
            assert(ports.take(0) =~= Seq::<Option<PortView>>::empty());
            assert(mixed(ports, done, 0) =~= ports);
            assert(v.woken_all(cpu, Seq::<ThreadId>::empty()).with_ports(ports) =~= v);
        }
        while i < MAX_PORTS
            invariant
                self.wf(),
                v == old(self)@,
                ports == v.machine.ports,
                ports.len() == MAX_PORTS,
                done == signalled_ports(ports, source, signal, edges),
                i <= MAX_PORTS,
                n <= i,
                n == slots::count(ports.take(i as int), listening(source, signal)),
                self@ == v.woken_all(
                    cpu,
                    drainers(ports.take(i as int), source, signal),
                ).with_ports(mixed(ports, done, i as int)),
            decreases MAX_PORTS - i,
        {
            let ghost woken = v.woken_all(cpu, drainers(ports.take(i as int), source, signal));
            proof {
                slots::lemma_count_take(ports, listening(source, signal), i as int);
                assert(ports.take(i + 1).drop_last() =~= ports.take(i as int));
                assert(ports.take(i + 1).last() == ports[i as int]);
                assert(self@.machine.ports[i as int] == ports[i as int]);
            }
            let mut wake: Option<ThreadId> = None;
            if let Some(port) = self.machine.ports.port_mut_at(i) {
                if port.deliver(source, signal, edges) {
                    n += 1;
                    wake = port.take_blocked_drainer();
                }
            }
            proof {
                assert(self.machine.ports@ =~= mixed(ports, done, i + 1));
                assert(self@ =~= woken.with_ports(mixed(ports, done, i + 1)));
            }
            if let Some(id) = wake {
                let _ = self.wake_thread(cpu, id);
                proof {
                    lemma_woken_keeps_ports(woken, cpu, id, mixed(ports, done, i + 1));
                    let d = drainers(ports.take(i + 1), source, signal);
                    assert(d.drop_last() =~= drainers(ports.take(i as int), source, signal));
                    assert(d.last() == id);
                }
            }
            i += 1;
        }
        proof {
            assert(ports.take(i as int) =~= ports);
            assert(mixed(ports, done, i as int) =~= done);
        }
        n
    }

    /// Signals one port, on a source that port is already bound to. The binding
    /// is the authority: a holder reaches the port it was granted and no other.
    pub fn port_signal_one(
        &mut self,
        cpu: u32,
        port: PortId,
        source: u64,
        signal: u8,
        edges: u32,
    ) -> (r: Result<(), KError>)
        requires
            old(self).wf(),
        ensures
            final(self).wf(),
            match port_at(old(self)@.machine.ports, port) {
                None => r == Err::<(), _>(KError::BadHandle) && final(self)@ == old(self)@,
                Some(p) => if !p.listens(source, signal) {
                    r == Err::<(), _>(KError::Protocol) && final(self)@ == old(self)@
                } else {
                    &&& r is Ok
                    &&& final(self)@ == old(self)@.with_port(
                        port,
                        PortView { blocked_drainer: None, ..p.delivered(source, signal, edges) },
                    ).woken_if(cpu, p.blocked_drainer)
                },
            },
    {
        let ghost v = self@;
        let ghost ports = v.machine.ports;
        let mut wake: Option<ThreadId> = None;
        let mut found: bool = false;
        let mut delivered: bool = false;
        if let Some(p) = self.machine.ports.port_mut(port) {
            found = true;
            if p.deliver(source, signal, edges) {
                delivered = true;
                wake = p.take_blocked_drainer();
            }
        }
        proof {
            if port_at(ports, port) is Some {
                assert(ports.update(port.0 as int, ports[port.0 as int]) =~= ports);
            }
            assert(self@ =~= v.with_ports(self.machine.ports@));
            assert(v.with_ports(ports) =~= v);
        }
        if !found {
            return Err(KError::BadHandle);
        }
        if !delivered {
            return Err(KError::Protocol);
        }
        self.wake_if(cpu, wake);
        Ok(())
    }

    /// Whether a wait on this port would return without parking.
    pub fn port_asserted(&self, port: PortId) -> (b: bool)
        requires
            self.wf(),
        ensures
            b == (port_at(self@.machine.ports, port) matches Some(p) && p.has_event()),
    {
        match self.machine.ports.port(port) {
            Some(p) => p.is_asserted(),
            None => false,
        }
    }

    /// Whether a thread is parked in a wait on `port`.
    pub fn port_has_drainer(&self, port: PortId) -> (b: bool)
        requires
            self.wf(),
        ensures
            b == (port_at(self@.machine.ports, port) matches Some(p) && p.blocked_drainer is Some),
    {
        match self.machine.ports.port(port) {
            Some(p) => p.has_blocked_drainer(),
            None => false,
        }
    }

    /// The coalescing count observed on `port`.
    pub fn port_coalesced(&self, port: PortId) -> (n: u64)
        requires
            self.wf(),
        ensures
            n == match port_at(self@.machine.ports, port) {
                Some(p) => p.coalesced,
                None => 0,
            },
    {
        match self.machine.ports.port(port) {
            Some(p) => p.coalesced(),
            None => 0,
        }
    }

    /// Drains one coalesced event from `port`, or parks until one may be
    /// available: the thread then goes on with
    /// [`port_wait_resume`](Self::port_wait_resume).
    pub fn port_wait(&mut self, cpu: u32, port: PortId) -> (r: Step<Result<PortEvent, KError>>)
        requires
            old(self).wf(),
            old(self)@.can_switch(cpu),
        ensures
            final(self).wf(),
            port_wait_step(
                old(self)@.entered(cpu, Site::PortWait),
                final(self)@,
                cpu,
                port,
                r,
            ),
    {
        self.enter_blocking(cpu, Site::PortWait);
        self.port_wait_resume(cpu, port)
    }

    /// What a thread in [`port_wait`](Self::port_wait) does each time it runs
    /// again.
    pub fn port_wait_resume(&mut self, cpu: u32, port: PortId) -> (r: Step<
        Result<PortEvent, KError>,
    >)
        requires
            old(self).wf(),
            old(self)@.can_switch(cpu),
        ensures
            final(self).wf(),
            port_wait_step(old(self)@, final(self)@, cpu, port, r),
    {
        let ghost v = self@;
        let ghost ports = v.machine.ports;
        let mut found: bool = false;
        let mut event: Option<PortEvent> = None;
        if let Some(p) = self.machine.ports.port_mut(port) {
            found = true;
            event = p.drain();
        }
        proof {
            if port_at(ports, port) is Some {
                assert(ports.update(port.0 as int, ports[port.0 as int]) =~= ports);
            }
            assert(self@ =~= v.with_ports(self.machine.ports@));
            assert(v.with_ports(ports) =~= v);
        }
        if !found {
            self.leave_blocking(cpu, Site::PortWait);
            return Step::Done(Err(KError::BadHandle));
        }
        if let Some(e) = event {
            self.leave_blocking(cpu, Site::PortWait);
            return Step::Done(Ok(e));
        }
        let me: ThreadId = match self.current_id(cpu) {
            None => {
                self.leave_blocking(cpu, Site::PortWait);
                return Step::Done(Err(KError::BadHandle));
            },
            Some(id) => id,
        };
        if let Some(p) = self.machine.ports.port_mut(port) {
            p.set_blocked_drainer(Some(me));
        }
        assert(self@ =~= v.with_ports(self.machine.ports@));
        Step::Park(self.park_current(cpu))
    }
}

/// What waiting on `port` comes to, from a state in which the thread is inside.
pub open spec fn port_wait_step(
    v: ExecView,
    w: ExecView,
    cpu: u32,
    port: PortId,
    r: Step<Result<PortEvent, KError>>,
) -> bool {
    match port_at(v.machine.ports, port) {
        None => {
            &&& r == Step::Done(Err::<PortEvent, _>(KError::BadHandle))
            &&& w == v.left(cpu, Site::PortWait)
        },
        Some(p) => if p.has_event() {
            &&& r == Step::Done(Ok::<_, KError>(p.event()))
            &&& w == v.with_port(port, p.drained()).left(cpu, Site::PortWait)
        } else {
            match v.running_id(cpu) {
                None => {
                    &&& r == Step::Done(Err::<PortEvent, _>(KError::BadHandle))
                    &&& w == v.left(cpu, Site::PortWait)
                },
                Some(me) => {
                    let u = v.with_port(port, PortView { blocked_drainer: Some(me), ..p });
                    &&& r == Step::<Result<PortEvent, KError>>::Park(u.park_switch(cpu))
                    &&& w == u.parked(cpu)
                },
            }
        },
    }
}

/// The first `n` ports of `done` and the rest of `ports`.
pub open spec fn mixed(ports: PortsView, done: PortsView, n: int) -> PortsView {
    Seq::new(
        ports.len(),
        |i: int|
            if i < n {
                done[i]
            } else {
                ports[i]
            },
    )
}

} // verus!
