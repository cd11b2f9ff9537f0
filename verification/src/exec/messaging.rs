//! Channels through the executive: one-way sends, receives that park, and
//! synchronous calls whose caller lends its priority and its cause to the
//! callee and is answered by transaction.
use vstd::prelude::*;
use crate::config::{MAX_CHANNELS, MAX_CPUS, MAX_THREADS};
use crate::error::KError;
use crate::exec::mint::law_minted_ids_are_fresh;
use crate::exec::ports::{lemma_woken_all_frame, Step};
use crate::exec::{
    seat, seat_of, BoundEndpoint, CpuView, ExecView, Executive, Loan, MachineView, Residence,
    MAX_SYNC_DEPTH,
};
use crate::ipc::{
    channel_at, channel_vacancy, endpoint_at, endpoint_known_by, object_at, with_endpoint, Channel,
    ChannelView, EndpointId, EndpointView, Message, MessageView, SIGNAL_MESSAGE,
};
use crate::object::ObjectId;
use crate::occupancy::Site;
use crate::sched::Switch;
use crate::slots;
use crate::thread::{Thread, ThreadId};

verus! {

impl ExecView {
    /// The endpoint `id` names, if its channel exists.
    pub open spec fn end(self, id: EndpointId) -> Option<EndpointView> {
        endpoint_at(self.machine.channels, id)
    }

    /// With the endpoint `id`, whose channel exists, replaced.
    pub open spec fn with_end(self, id: EndpointId, e: EndpointView) -> ExecView {
        self.with_channels(with_endpoint(self.machine.channels, id, e))
    }

    /// With the arrival of a message raised on `destination`, if that end is
    /// bound to an object.
    pub open spec fn arrived(self, cpu: u32, destination: Option<ObjectId>) -> ExecView {
        match destination {
            Some(o) => self.signalled(cpu, o.0 as u64, SIGNAL_MESSAGE, 1),
            None => self,
        }
    }

    /// What sending `m` from `from` comes to.
    pub open spec fn send_result(self, from: EndpointId) -> Result<(), KError> {
        match self.end(from.peer()) {
            None => Err(KError::BadHandle),
            Some(e) => if e.full() {
                Err(KError::WouldBlock)
            } else {
                Ok(())
            },
        }
    }

    /// The executive after `m` is sent from `from` by what runs on `cpu`.
    pub open spec fn sent(self, cpu: u32, from: EndpointId, m: MessageView) -> ExecView {
        self.sent_for(cpu, from, m, self.cause(cpu))
    }

    /// The executive after `m` is sent from `from`, if it can be: queued at the
    /// other end with the cause `cause`, the receiver parked there woken, and
    /// the arrival signalled.
    pub open spec fn sent_for(self, cpu: u32, from: EndpointId, m: MessageView, cause: u64) -> ExecView {
        let to = from.peer();
        match self.end(to) {
            None => self,
            Some(e) => if e.full() {
                self
            } else {
                self.with_end(
                    to,
                    e.enqueued(m.with_correlation(cause)).with_receiver(None),
                ).woken_if(cpu, e.blocked_receiver).arrived(
                    cpu,
                    object_at(self.machine.channels, to),
                )
            },
        }
    }

    /// The executive after the message in front at `on` is taken: its cause is
    /// the receiver's from now on.
    pub open spec fn received(self, cpu: u32, on: EndpointId) -> ExecView {
        let e = self.end(on)->0;
        self.with_end(on, e.dequeued()).adopting(cpu, e.queue[0].header.correlation)
    }

    /// Whether a message waits at `on`.
    pub open spec fn has_message(self, on: EndpointId) -> bool {
        self.end(on) matches Some(e) && e.queue.len() > 0
    }
}

/// A step that may wait for a message.
pub open spec fn message_result(r: Result<Message, KError>) -> Result<MessageView, KError> {
    match r {
        Ok(m) => Ok(m@),
        Err(e) => Err(e),
    }
}

/// What an endpoint says about who waits.
pub(crate) struct EndState {
    pub(crate) receiver: Option<ThreadId>,
    pub(crate) caller: Option<(ThreadId, u64)>,
    pub(crate) peer_closed: bool,
    pub(crate) empty: bool,
}

/// The other end of the same channel.
pub(crate) fn peer_of(id: EndpointId) -> (p: EndpointId)
    requires
        id.side < 2,
    ensures
        p == id.peer(),
        p.side < 2,
{
    EndpointId { channel: id.channel, side: Channel::peer(id.side) }
}

impl Executive {
    /// Creates a channel, returning its two endpoint ids.
    pub fn channel_create(&mut self) -> (r: Result<(EndpointId, EndpointId), KError>)
        requires
            old(self).wf(),
        ensures
            final(self).wf(),
            ({
                let t = old(self)@.machine.channels;
                match r {
                    Ok((a, b)) => {
                        &&& channel_vacancy(t) < MAX_CHANNELS
                        &&& a == (EndpointId { channel: channel_vacancy(t) as usize, side: 0 })
                        &&& b == a.peer()
                        &&& final(self)@ == old(self)@.with_channels(
                            t.update(channel_vacancy(t), Some(ChannelView::fresh())),
                        )
                    },
                    Err(e) => {
                        &&& e == KError::OutOfMemory
                        &&& channel_vacancy(t) == MAX_CHANNELS
                        &&& final(self)@ == old(self)@
                    },
                }
            }),
    {
        let r = self.machine.channels.create();
        assert(self@ =~= old(self)@.with_channels(self.machine.channels@));
        r
    }

    /// Creates a channel and gives each end a freshly minted object id. Nobody
    /// outside the kernel chooses one.
    pub fn channel_create_with_objects(&mut self) -> (r: Result<
        (BoundEndpoint, BoundEndpoint),
        KError,
    >)
        requires
            old(self).wf(),
        ensures
            final(self).wf(),
            ({
                let m = old(self)@.machine;
                let t = m.channels;
                let id0 = ObjectId(m.next_minted());
                let id1 = ObjectId(m.then_minted());
                if channel_vacancy(t) == MAX_CHANNELS || id1.0 == u32::MAX {
                    &&& r == Err::<(BoundEndpoint, BoundEndpoint), _>(KError::OutOfMemory)
                    &&& final(self)@ == old(self)@
                } else {
                    &&& r matches Ok((a, b))
                    &&& a.endpoint == (EndpointId {
                        channel: channel_vacancy(t) as usize,
                        side: 0,
                    })
                    &&& b.endpoint == a.endpoint.peer()
                    &&& a.object == id0
                    &&& b.object == id1
                    &&& final(self)@ == old(self)@.with_minted(id1.0).with_channels(
                        t.update(
                            channel_vacancy(t),
                            Some(
                                ChannelView {
                                    objects: seq![Some(id0), Some(id1)],
                                    ..ChannelView::fresh()
                                },
                            ),
                        ),
                    )
                }
            }),
    {
        let ghost v = self@;
        let ghost t = v.machine.channels;
        let first: u32 = self.unbound_id(self.machine.minted);
        if first == u32::MAX {
            return Err(KError::OutOfMemory);
        }
        let second: u32 = self.unbound_id(first + 1);
        if second == u32::MAX {
            return Err(KError::OutOfMemory);
        }
        proof {
            law_minted_ids_are_fresh(v.machine);
            slots::lemma_first(t, slots::free::<ChannelView>());
        }
        let made = self.machine.channels.create_with_objects(ObjectId(first), ObjectId(second));
        assert(self@ =~= v.with_channels(self.machine.channels@));
        match made {
            Err(e) => Err(e),
            Ok((a, b)) => {
                self.set_minted(second);
                assert(self@ =~= v.with_minted(second).with_channels(self.machine.channels@));
                // Read back rather than assumed: the object of an end is what
                // resolving it goes by.
                match (
                    self.machine.channels.endpoint_object(a),
                    self.machine.channels.endpoint_object(b),
                ) {
                    (Some(o0), Some(o1)) => Ok(
                        (
                            BoundEndpoint { endpoint: a, object: o0 },
                            BoundEndpoint { endpoint: b, object: o1 },
                        ),
                    ),
                    _ => Err(KError::Protocol),
                }
            },
        }
    }

    /// Binds `endpoint` to the object it is known by.
    pub fn bind_endpoint_object(&mut self, endpoint: EndpointId, id: ObjectId)
        requires
            old(self).wf(),
            endpoint.side < 2,
        ensures
            final(self).wf(),
            ({
                let t = old(self)@.machine.channels;
                final(self)@ == match channel_at(t, endpoint.channel) {
                    Some(c) => old(self)@.with_channels(
                        t.update(
                            endpoint.channel as int,
                            Some(
                                ChannelView {
                                    objects: c.objects.update(endpoint.side as int, Some(id)),
                                    ..c
                                },
                            ),
                        ),
                    ),
                    None => old(self)@,
                }
            }),
    {
        self.machine.channels.set_endpoint_object(endpoint, id);
        assert(self@ =~= old(self)@.with_channels(self.machine.channels@));
    }

    /// Resolves a channel object back to its endpoint.
    pub fn endpoint_of_object(&self, id: ObjectId) -> (r: Option<EndpointId>)
        requires
            self.wf(),
        ensures
            r == endpoint_known_by(self@.machine.channels, id),
    {
        self.machine.channels.endpoint_of_object(id)
    }

    /// The thread parked in a receive on `endpoint`, if one is.
    pub fn endpoint_receiver(&self, endpoint: EndpointId) -> (r: Option<ThreadId>)
        requires
            self.wf(),
            endpoint.side < 2,
        ensures
            r == match self@.end(endpoint) {
                Some(e) => e.blocked_receiver,
                None => None,
            },
    {
        match self.end_state(endpoint) {
            Some(e) => e.receiver,
            None => None,
        }
    }

    pub(crate) fn end_state(&self, id: EndpointId) -> (r: Option<EndState>)
        requires
            self.wf(),
            id.side < 2,
        ensures
            match r {
                Some(s) => {
                    &&& self@.end(id) matches Some(e)
                    &&& s.receiver == e.blocked_receiver
                    &&& s.caller == e.pending_caller
                    &&& s.peer_closed == e.peer_closed
                    &&& s.empty == (e.queue.len() == 0)
                },
                None => self@.end(id) is None,
            },
    {
        match self.machine.channels.channel(id.channel) {
            None => None,
            Some(c) => {
                let e = c.endpoint(id.side);
                Some(
                    EndState {
                        receiver: e.blocked_receiver(),
                        caller: e.pending_caller(),
                        peer_closed: e.peer_closed(),
                        empty: e.is_empty(),
                    },
                )
            },
        }
    }

    pub(crate) fn end_enqueue(&mut self, id: EndpointId, m: Message) -> (r: Result<(), KError>)
        requires
            old(self).wf(),
            id.side < 2,
            m.wf(),
        ensures
            final(self).wf(),
            match old(self)@.end(id) {
                None => r == Err::<(), _>(KError::BadHandle) && final(self)@ == old(self)@,
                Some(e) => if e.full() {
                    r == Err::<(), _>(KError::WouldBlock) && final(self)@ == old(self)@
                } else {
                    r is Ok && final(self)@ == old(self)@.with_end(id, e.enqueued(m@))
                },
            },
    {
        let ghost v = self@;
        let ghost t = v.machine.channels;
        let mut r: Result<(), KError> = Err(KError::BadHandle);
        if let Some(c) = self.machine.channels.channel_mut(id.channel) {
            r = c.endpoint_mut(id.side).enqueue(m);
        }
        proof {
            assert(self@ =~= v.with_channels(self.machine.channels@));
            assert(v.with_channels(t) =~= v);
            lemma_same_end(v, id);
        }
        r
    }

    pub(crate) fn end_dequeue(&mut self, id: EndpointId) -> (r: Option<Message>)
        requires
            old(self).wf(),
            id.side < 2,
        ensures
            final(self).wf(),
            match r {
                Some(m) => {
                    &&& old(self)@.has_message(id)
                    &&& m.wf()
                    &&& m@ == old(self)@.end(id)->0.queue[0]
                    &&& final(self)@ == old(self)@.with_end(id, old(self)@.end(id)->0.dequeued())
                },
                None => !old(self)@.has_message(id) && final(self)@ == old(self)@,
            },
    {
        let ghost v = self@;
        let ghost t = v.machine.channels;
        let mut r: Option<Message> = None;
        if let Some(c) = self.machine.channels.channel_mut(id.channel) {
            r = c.endpoint_mut(id.side).dequeue();
        }
        proof {
            assert(self@ =~= v.with_channels(self.machine.channels@));
            assert(v.with_channels(t) =~= v);
            lemma_same_end(v, id);
        }
        r
    }

    pub(crate) fn end_set_receiver(&mut self, id: EndpointId, thread: Option<ThreadId>)
        requires
            old(self).wf(),
            id.side < 2,
        ensures
            final(self).wf(),
            final(self)@ == old(self)@.receiver_set(id, thread),
    {
        let ghost v = self@;
        if let Some(c) = self.machine.channels.channel_mut(id.channel) {
            c.endpoint_mut(id.side).set_blocked_receiver(thread);
        }
        assert(self@ =~= v.with_channels(self.machine.channels@));
    }

    pub(crate) fn end_set_caller(&mut self, id: EndpointId, caller: Option<(ThreadId, u64)>)
        requires
            old(self).wf(),
            id.side < 2,
        ensures
            final(self).wf(),
            final(self)@ == old(self)@.caller_set(id, caller),
    {
        let ghost v = self@;
        if let Some(c) = self.machine.channels.channel_mut(id.channel) {
            c.endpoint_mut(id.side).set_pending_caller(caller);
        }
        assert(self@ =~= v.with_channels(self.machine.channels@));
    }

    /// Gives up on the call made from `id`, if one is unanswered.
    pub(crate) fn end_abort(&mut self, id: EndpointId)
        requires
            old(self).wf(),
            id.side < 2,
        ensures
            final(self).wf(),
            final(self)@ == old(self)@.call_aborted(id),
    {
        let ghost v = self@;
        if let Some(c) = self.machine.channels.channel_mut(id.channel) {
            c.endpoint_mut(id.side).abort_call();
        }
        assert(self@ =~= v.with_channels(self.machine.channels@));
    }

    /// Raises the arrival of a message on `destination`.
    fn signal_endpoint_arrival(&mut self, cpu: u32, destination: Option<ObjectId>)
        requires
            old(self).wf(),
        ensures
            final(self).wf(),
            final(self)@ == old(self)@.arrived(cpu, destination),
    {
        if let Some(o) = destination {
            let _ = self.port_signal(cpu, o.raw() as u64, SIGNAL_MESSAGE, 1);
        }
    }

    /// Sends a one-way message from `from` to its peer, waking a blocked
    /// receiver without a handoff. A full queue is [`KError::WouldBlock`].
    pub fn send(&mut self, cpu: u32, from: EndpointId, message: Message) -> (r: Result<(), KError>)
        requires
            old(self).wf(),
            from.side < 2,
            message.wf(),
        ensures
            final(self).wf(),
            r == old(self)@.send_result(from),
            final(self)@ == old(self)@.sent(cpu, from, message@),
    {
        // A send has no handoff to carry causality through, so the id rides the
        // message itself.
        let cause: u64 = self.current_cause(cpu);
        self.send_for(cpu, from, message, cause)
    }

    /// Sends a one-way message on behalf of the cause `cause`.
    pub(crate) fn send_for(&mut self, cpu: u32, from: EndpointId, message: Message, cause: u64) -> (r:
        Result<(), KError>)
        requires
            old(self).wf(),
            from.side < 2,
            message.wf(),
        ensures
            final(self).wf(),
            r == old(self)@.send_result(from),
            final(self)@ == old(self)@.sent_for(cpu, from, message@, cause),
    {
        let to = peer_of(from);
        let ghost v = self@;
        let mut message = message;
        message.set_correlation(cause);
        let receiver: Option<ThreadId> = self.endpoint_receiver(to);
        let destination: Option<ObjectId> = self.machine.channels.endpoint_object(to);
        match self.end_enqueue(to, message) {
            Err(e) => {
                return Err(e);
            },
            Ok(_) => {},
        }
        self.end_set_receiver(to, None);
        proof {
            let e = v.end(to)->0;
            let m = message@;
            lemma_end_of_with_end(v, to, e.enqueued(m));
            assert(self@ =~= v.with_end(to, e.enqueued(m).with_receiver(None)));
        }
        self.wake_if(cpu, receiver);
        self.signal_endpoint_arrival(cpu, destination);
        Ok(())
    }

    /// Receives a message on `on`, or parks until one may have arrived or the
    /// peer closed: the thread then goes on with
    /// [`receive_resume`](Self::receive_resume). First in, first out; a
    /// closed and drained endpoint is [`KError::PeerClosed`].
    pub fn receive(&mut self, cpu: u32, on: EndpointId) -> (r: Step<Result<Message, KError>>)
        requires
            old(self).wf(),
            old(self)@.can_switch(cpu),
            on.side < 2,
        ensures
            final(self).wf(),
            receive_step(
                old(self)@.entered(cpu, Site::Receive),
                final(self)@,
                cpu,
                on,
                Site::Receive,
                r,
            ),
    {
        self.enter_blocking(cpu, Site::Receive);
        self.receive_inside(cpu, on, Site::Receive)
    }

    /// What a thread in [`receive`](Self::receive) does each time it runs again.
    pub fn receive_resume(&mut self, cpu: u32, on: EndpointId) -> (r: Step<
        Result<Message, KError>,
    >)
        requires
            old(self).wf(),
            old(self)@.can_switch(cpu),
            on.side < 2,
        ensures
            final(self).wf(),
            receive_step(old(self)@, final(self)@, cpu, on, Site::Receive, r),
    {
        self.receive_inside(cpu, on, Site::Receive)
    }

    /// Receives or parks, being inside `site`, which is left with the result.
    pub(crate) fn receive_inside(&mut self, cpu: u32, on: EndpointId, site: Site) -> (r: Step<
        Result<Message, KError>,
    >)
        requires
            old(self).wf(),
            old(self)@.can_switch(cpu),
            on.side < 2,
        ensures
            final(self).wf(),
            receive_step(old(self)@, final(self)@, cpu, on, site, r),
    {
        let ghost v = self@;
        let state = match self.end_state(on) {
            None => {
                self.leave_blocking(cpu, site);
                return Step::Done(Err(KError::BadHandle));
            },
            Some(s) => s,
        };
        if let Some(m) = self.end_dequeue(on) {
            self.adopt_correlation(cpu, m.header().correlation);
            self.leave_blocking(cpu, site);
            return Step::Done(Ok(m));
        }
        if state.peer_closed {
            self.leave_blocking(cpu, site);
            return Step::Done(Err(KError::PeerClosed));
        }
        let me: ThreadId = match self.current_id(cpu) {
            None => {
                self.leave_blocking(cpu, site);
                return Step::Done(Err(KError::BadHandle));
            },
            Some(id) => id,
        };
        self.end_set_receiver(on, Some(me));
        Step::Park(self.park_current(cpu))
    }

    /// Receives without parking: takes a message if one is queued, and says
    /// [`KError::WouldBlock`] when none is. A closed peer is still
    /// [`KError::PeerClosed`].
    pub fn try_receive(&mut self, cpu: u32, on: EndpointId) -> (r: Result<Message, KError>)
        requires
            old(self).wf(),
            on.side < 2,
        ensures
            final(self).wf(),
            r matches Ok(m) ==> m.wf(),
            ({
                let v = old(self)@;
                match v.end(on) {
                    None => {
                        &&& message_result(r) == Err::<MessageView, _>(KError::BadHandle)
                        &&& final(self)@ == v
                    },
                    Some(e) => if e.queue.len() > 0 {
                        &&& message_result(r) == Ok::<_, KError>(e.queue[0])
                        &&& final(self)@ == v.received(cpu, on)
                    } else if e.peer_closed {
                        &&& message_result(r) == Err::<MessageView, _>(KError::PeerClosed)
                        &&& final(self)@ == v
                    } else {
                        &&& message_result(r) == Err::<MessageView, _>(KError::WouldBlock)
                        &&& final(self)@ == v
                    },
                }
            }),
    {
        let state = match self.end_state(on) {
            None => {
                return Err(KError::BadHandle);
            },
            Some(s) => s,
        };
        if let Some(m) = self.end_dequeue(on) {
            self.adopt_correlation(cpu, m.header().correlation);
            return Ok(m);
        }
        if state.peer_closed {
            return Err(KError::PeerClosed);
        }
        Err(KError::WouldBlock)
    }
}

impl ExecView {
    /// With `thread` as the blocked receiver of `id`, if its channel exists.
    pub open spec fn receiver_set(self, id: EndpointId, thread: Option<ThreadId>) -> ExecView {
        match self.end(id) {
            Some(e) => self.with_end(id, e.with_receiver(thread)),
            None => self,
        }
    }

    /// With `caller` as the pending caller of `id`, if its channel exists.
    pub open spec fn caller_set(self, id: EndpointId, caller: Option<(ThreadId, u64)>) -> ExecView {
        match self.end(id) {
            Some(e) => self.with_end(id, e.with_caller(caller)),
            None => self,
        }
    }

    /// With the call made from `id`, if any, given up on.
    pub open spec fn call_aborted(self, id: EndpointId) -> ExecView {
        match self.end(id) {
            Some(e) => self.with_end(id, e.aborted()),
            None => self,
        }
    }
}

/// What a receive on `on` by the thread running on `cpu`, inside `site`, comes
/// to.
pub open spec fn receive_step(
    v: ExecView,
    w: ExecView,
    cpu: u32,
    on: EndpointId,
    site: Site,
    r: Step<Result<Message, KError>>,
) -> bool {
    let out = v.left(cpu, site);
    match v.end(on) {
        None => w == out && r == Step::Done(Err::<Message, _>(KError::BadHandle)),
        Some(e) => if e.queue.len() > 0 {
            &&& w == v.received(cpu, on).left(cpu, site)
            &&& r matches Step::Done(done)
            &&& done matches Ok(m)
            &&& m.wf()
            &&& m@ == e.queue[0]
        } else if e.peer_closed {
            w == out && r == Step::Done(Err::<Message, _>(KError::PeerClosed))
        } else {
            match v.running_id(cpu) {
                None => w == out && r == Step::Done(Err::<Message, _>(KError::BadHandle)),
                Some(me) => {
                    let p = v.receiver_set(on, Some(me));
                    w == p.parked(cpu) && r == Step::<Result<Message, KError>>::Park(
                        p.park_switch(cpu),
                    )
                },
            }
        },
    }
}

/// Putting an endpoint back as it was changes nothing.
pub(crate) proof fn lemma_same_end(v: ExecView, id: EndpointId)
    requires
        crate::ipc::channels_wf(v.machine.channels),
        id.side < 2,
    ensures
        v.end(id) is Some ==> v.with_end(id, v.end(id)->0) == v,
{
    if v.end(id) is Some {
        let t = v.machine.channels;
        let c = t[id.channel as int]->0;
        assert(c.with_end(id.side as int, c.ends[id.side as int]) =~= c);
        assert(with_endpoint(t, id, v.end(id)->0) =~= t);
        assert(v.with_end(id, v.end(id)->0) =~= v);
    }
}

/// An endpoint that was replaced is what it was replaced by, and replacing it
/// again forgets the first time.
pub(crate) proof fn lemma_end_of_with_end(v: ExecView, id: EndpointId, e: EndpointView)
    requires
        crate::ipc::channels_wf(v.machine.channels),
        id.side < 2,
        v.end(id) is Some,
    ensures
        v.with_end(id, e).end(id) == Some(e),
        forall|f: EndpointView| #[trigger]
            v.with_end(id, e).with_end(id, f) == v.with_end(id, f),
{
    let t = v.machine.channels;
    let c = t[id.channel as int]->0;
    assert forall|f: EndpointView| #[trigger]
        v.with_end(id, e).with_end(id, f) == v.with_end(id, f) by {
        assert(c.with_end(id.side as int, e).with_end(id.side as int, f) =~= c.with_end(
            id.side as int,
            f,
        ));
        assert(v.with_end(id, e).with_end(id, f) =~= v.with_end(id, f));
    }
}

/// A synchronous call whose caller is parked: what it takes to finish it.
#[derive(Clone, Copy, PartialEq, Eq, Debug, Structural)]
pub struct PendingCall {
    /// The caller's slot on the CPU it called from.
    pub caller: usize,
    /// The endpoint it called from.
    pub from: EndpointId,
    /// The transaction a reply must answer.
    pub txn: u64,
    /// The callee's slot, when it was parked on the same CPU and is lent the
    /// caller's priority and cause.
    pub callee: Option<usize>,
}

/// What making a synchronous call comes to.
#[derive(Clone, Copy, PartialEq, Eq, Debug, Structural)]
pub enum CallStep {
    /// The call was not made.
    Refused(KError),
    /// The call is out and its caller leaves the processor.
    Parked(PendingCall, Switch),
}

impl ExecView {
    /// The half `cpu` uses.
    pub open spec fn local(self, cpu: u32) -> CpuView {
        self.cpus[seat(cpu)]
    }

    /// With one transaction minted.
    pub open spec fn minted(self, cpu: u32) -> ExecView {
        let c = self.local(cpu);
        self.with_cpu(cpu, CpuView { next_txn: (c.next_txn + 1) as u64, ..c })
    }

    /// With the call depth of thread slot `i` set to `depth`.
    pub open spec fn with_depth(self, cpu: u32, i: usize, depth: u8) -> ExecView {
        let c = self.local(cpu);
        self.with_cpu(cpu, CpuView { sync_depth: c.sync_depth.update(i as int, depth), ..c })
    }

    /// What the thread `t` in slot `i` has of its own: what it put aside, or what
    /// it runs with when it is lent nothing.
    pub open spec fn own(self, cpu: u32, i: usize, t: Thread, txn: u64) -> Loan {
        match self.local(cpu).loans[i as int] {
            Some(l) => if l.callee == t.id {
                Loan { txn, ..l }
            } else {
                Loan { txn, callee: t.id, priority: t.priority, correlation: t.correlation }
            },
            None => Loan { txn, callee: t.id, priority: t.priority, correlation: t.correlation },
        }
    }

    /// With thread slot `i`, if it holds one, running at `priority` for the cause
    /// `correlation` on behalf of the call `txn`, its own put aside.
    pub open spec fn lent(
        self,
        cpu: u32,
        i: usize,
        priority: u8,
        correlation: u64,
        txn: u64,
    ) -> ExecView {
        let c = self.local(cpu);
        match c.sched.thread(i) {
            Some(t) => self.with_cpu(
                cpu,
                CpuView {
                    sched: c.sched.with_priority(i, priority).with_correlation(i, correlation),
                    loans: c.loans.update(i as int, Some(self.own(cpu, i, t, txn))),
                    ..c
                },
            ),
            None => self,
        }
    }

    /// With what thread slot `i` put aside given back to it, if the loan in force
    /// is the one for the call `txn`. A later call's loan stays.
    pub open spec fn restored(self, cpu: u32, i: usize, txn: u64) -> ExecView {
        let c = self.local(cpu);
        match c.loans[i as int] {
            Some(l) => if l.txn == txn && (c.sched.thread(i) matches Some(t) && t.id == l.callee) {
                self.with_cpu(
                    cpu,
                    CpuView {
                        sched: c.sched.with_priority(i, l.priority).with_correlation(
                            i,
                            l.correlation,
                        ),
                        loans: c.loans.update(i as int, None),
                        ..c
                    },
                )
            } else {
                self
            },
            None => self,
        }
    }

    /// Whether the thread running on `cpu` may make another nested call.
    pub open spec fn may_call(self, cpu: u32) -> bool {
        self.running(cpu) is Some && self.local(cpu).sync_depth[self.sched(
            cpu,
        ).current->0 as int] < MAX_SYNC_DEPTH
    }

    /// Why a call from `from` is refused once it has its transaction, if it is:
    /// the channel is gone, a call from this end is still unanswered, or the
    /// callee's queue is full.
    pub open spec fn call_refusal(self, from: EndpointId) -> Option<KError> {
        match self.end(from) {
            None => Some(KError::BadHandle),
            Some(e) => if e.pending_caller is Some {
                Some(KError::Protocol)
            } else if self.end(from.peer())->0.full() {
                Some(KError::WouldBlock)
            } else {
                None
            },
        }
    }

    /// With the request of a call from `from` delivered under transaction
    /// `txn`: queued at the callee's end, the caller registered, the arrival
    /// signalled, and the caller one call deeper.
    pub open spec fn called(self, cpu: u32, from: EndpointId, m: MessageView, txn: u64) -> ExecView {
        let to = from.peer();
        let slot = self.sched(cpu).current->0;
        let v = self.with_end(
            to,
            self.end(to)->0.enqueued(
                m.with_txn(txn).with_correlation(self.running(cpu)->0.correlation),
            ).with_receiver(None),
        );
        let w = v.caller_set(from, Some((self.running_id(cpu)->0, txn))).arrived(
            cpu,
            object_at(self.machine.channels, to),
        );
        w.with_depth(cpu, slot, (w.local(cpu).sync_depth[slot as int] + 1) as u8)
    }

    /// Where the callee of a call from `from` is, if one is parked there.
    pub open spec fn callee(self, cpu: u32, from: EndpointId, w: ExecView) -> Residence {
        match self.end(from.peer())->0.blocked_receiver {
            Some(id) => w.residence(cpu, id),
            None => Residence::Gone,
        }
    }

    /// The place in the record of given-up callers that holds `id`, or its
    /// length.
    pub open spec fn expired_at(self, id: ThreadId) -> int {
        slots::first(self.machine.expired_callers, crate::process::is_thread(id))
    }

    /// With the record that `id` was given up on consumed.
    pub open spec fn expiry_taken(self, id: ThreadId) -> ExecView {
        ExecView {
            machine: MachineView {
                expired_callers: self.machine.expired_callers.update(self.expired_at(id), None),
                ..self.machine
            },
            ..self
        }
    }

    /// Whether thread slot `i` of `cpu` is a caller that was given up on.
    pub open spec fn gave_up_on(self, cpu: u32, i: usize) -> bool {
        self.sched(cpu).thread(i) matches Some(t) && self.expired_at(t.id)
            < self.machine.expired_callers.len()
    }
}

/// What making a call comes to, from the state in which the caller is inside.
pub open spec fn call_step(
    v: ExecView,
    w: ExecView,
    cpu: u32,
    from: EndpointId,
    m: MessageView,
    r: CallStep,
) -> bool {
    if v.running(cpu) is None {
        w == v.left(cpu, Site::Call) && r == CallStep::Refused(KError::BadHandle)
    } else if !v.may_call(cpu) {
        w == v.left(cpu, Site::Call) && r == CallStep::Refused(KError::Protocol)
    } else {
        let slot = v.sched(cpu).current->0;
        let caller = v.running(cpu)->0;
        let txn = v.local(cpu).next_txn;
        let u = v.minted(cpu);
        match u.call_refusal(from) {
            Some(e) => w == u.left(cpu, Site::Call) && r == CallStep::Refused(e),
            None => {
                let c = u.called(cpu, from, m, txn);
                let pending = PendingCall { caller: slot, from, txn, callee: None };
                match u.callee(cpu, from, c) {
                    // The callee waits here: it runs at the caller's priority
                    // and for the caller's cause, and gets the processor.
                    Residence::Here(i) => {
                        let l = c.lent(cpu, i, caller.priority, caller.correlation, txn);
                        &&& w == l.handed_off(cpu, i)
                        &&& r == CallStep::Parked(
                            PendingCall { callee: Some(i), ..pending },
                            l.handoff_switch(cpu, i),
                        )
                    },
                    // It waits on another CPU: it is woken there.
                    Residence::Elsewhere { cpu: other, slot } => {
                        let p = c.posted(other, slot, u.end(from.peer())->0.blocked_receiver->0);
                        &&& w == p.parked(cpu)
                        &&& r == CallStep::Parked(pending, p.park_switch(cpu))
                    },
                    // Nobody waits yet: the request is queued for whoever does.
                    Residence::Gone => {
                        &&& w == c.parked(cpu)
                        &&& r == CallStep::Parked(pending, c.park_switch(cpu))
                    },
                }
            },
        }
    }
}

/// The executive as the call of a caller that runs again is over: the caller
/// one call less deep, out of the operation, and what the callee was lent given
/// back.
pub open spec fn call_over(v: ExecView, cpu: u32, call: PendingCall) -> ExecView {
    let d = v.left(cpu, Site::Call).with_depth(
        cpu,
        call.caller,
        (v.local(cpu).sync_depth[call.caller as int] - 1) as u8,
    );
    match call.callee {
        Some(i) => d.restored(cpu, i, call.txn),
        None => d,
    }
}

/// What a caller that runs again comes away with.
pub open spec fn resume_step(
    v: ExecView,
    w: ExecView,
    cpu: u32,
    call: PendingCall,
    r: Result<Message, KError>,
) -> bool {
    let u = call_over(v, cpu, call);
    if u.gave_up_on(cpu, call.caller) {
        // The kernel gave up waiting on this caller's behalf.
        &&& w == u.expiry_taken(u.sched(cpu).thread(call.caller)->0.id).caller_set(call.from, None)
        &&& message_result(r) == Err::<MessageView, _>(KError::TimedOut)
    } else {
        match u.end(call.from) {
            None => w == u && message_result(r) == Err::<MessageView, _>(KError::BadHandle),
            Some(e) => {
                let at = e.reply_at(call.txn);
                if at < e.queue.len() {
                    &&& w == u.with_end(
                        call.from,
                        EndpointView { queue: e.queue.remove(at), pending_caller: None, ..e },
                    )
                    &&& message_result(r) == Ok::<_, KError>(e.queue[at])
                } else {
                    &&& w == u.with_end(call.from, e.with_caller(None))
                    &&& message_result(r) == Err::<MessageView, _>(
                        if e.queue.len() == 0 {
                            KError::PeerClosed
                        } else {
                            KError::Protocol
                        },
                    )
                }
            },
        }
    }
}

/// Signalling an arrival leaves the channels, the call depths and the running
/// thread alone.
pub(crate) proof fn lemma_arrived_frame(v: ExecView, cpu: u32, destination: Option<ObjectId>)
    requires
        v.cpus.len() == MAX_CPUS,
    ensures
        v.arrived(cpu, destination).machine == (MachineView {
            posted: v.arrived(cpu, destination).machine.posted,
            ports: v.arrived(cpu, destination).machine.ports,
            ..v.machine
        }),
        v.arrived(cpu, destination).cpus.len() == MAX_CPUS,
        v.arrived(cpu, destination).sched(cpu).switches == v.sched(cpu).switches,
        v.arrived(cpu, destination).sched(cpu).current == v.sched(cpu).current,
        v.arrived(cpu, destination).local(cpu).sync_depth == v.local(cpu).sync_depth,
        v.arrived(cpu, destination).local(cpu).next_txn == v.local(cpu).next_txn,
        v.arrived(cpu, destination).local(cpu).loans == v.local(cpu).loans,
{
    if let Some(o) = destination {
        let ids = crate::exec::ports::drainers(v.machine.ports, o.0 as u64, SIGNAL_MESSAGE);
        lemma_woken_all_frame(v, cpu, ids);
        lemma_woken_all_locals(v, cpu, ids);
    }
}

proof fn lemma_woken_all_locals(v: ExecView, cpu: u32, ids: Seq<ThreadId>)
    requires
        v.cpus.len() == MAX_CPUS,
    ensures
        v.woken_all(cpu, ids).local(cpu).sync_depth == v.local(cpu).sync_depth,
        v.woken_all(cpu, ids).local(cpu).next_txn == v.local(cpu).next_txn,
        v.woken_all(cpu, ids).local(cpu).loans == v.local(cpu).loans,
    decreases ids.len(),
{
    if ids.len() > 0 {
        lemma_woken_all_locals(v, cpu, ids.drop_last());
        lemma_woken_all_frame(v, cpu, ids.drop_last());
    }
}

impl Executive {
    fn mint_txn(&mut self, cpu: u32) -> (txn: u64)
        requires
            old(self).wf(),
            old(self)@.local(cpu).next_txn < u64::MAX,
        ensures
            final(self).wf(),
            txn == old(self)@.local(cpu).next_txn,
            final(self)@ == old(self)@.minted(cpu),
    {
        let i: usize = seat_of(cpu);
        assert(self@.cpus[i as int] == self.cpus@[i as int]@);
        let txn: u64 = self.cpus[i].next_txn;
        self.cpus[i].next_txn = txn + 1;
        assert(self@ =~= old(self)@.minted(cpu));
        txn
    }

    fn depth_of(&self, cpu: u32, slot: usize) -> (d: u8)
        requires
            self.wf(),
            slot < MAX_THREADS,
        ensures
            d == self@.local(cpu).sync_depth[slot as int],
    {
        let i: usize = seat_of(cpu);
        assert(self@.cpus[i as int] == self.cpus@[i as int]@);
        self.cpus[i].sync_depth[slot]
    }

    fn set_depth(&mut self, cpu: u32, slot: usize, depth: u8)
        requires
            old(self).wf(),
            slot < MAX_THREADS,
        ensures
            final(self).wf(),
            final(self)@ == old(self)@.with_depth(cpu, slot, depth),
    {
        let i: usize = seat_of(cpu);
        assert(self@.cpus[i as int] == self.cpus@[i as int]@);
        self.cpus[i].sync_depth[slot] = depth;
        assert(self@ =~= old(self)@.with_depth(cpu, slot, depth));
    }

    /// Lends the caller's priority and cause to the callee for the call `txn`.
    fn lend(&mut self, cpu: u32, slot: usize, priority: u8, correlation: u64, txn: u64)
        requires
            old(self).wf(),
            slot < MAX_THREADS,
        ensures
            final(self).wf(),
            final(self)@ == old(self)@.lent(cpu, slot, priority, correlation, txn),
            final(self)@.sched(cpu).runnable(slot) == old(self)@.sched(cpu).runnable(slot),
            final(self)@.can_switch(cpu) == old(self)@.can_switch(cpu),
    {
        let i: usize = seat_of(cpu);
        let ghost v = self@;
        assert(self@.cpus[i as int] == self.cpus@[i as int]@);
        let t: Thread = match self.cpus[i].sched.thread_at(slot) {
            None => {
                return;
            },
            Some(t) => t,
        };
        let mut own = Loan {
            txn,
            callee: t.id,
            priority: t.priority,
            correlation: t.correlation,
        };
        if let Some(l) = self.cpus[i].loans[slot] {
            if l.callee == t.id {
                own = Loan { txn, ..l };
            }
        }
        assert(own == v.own(cpu, slot, t, txn));
        self.cpus[i].loans[slot] = Some(own);
        self.cpus[i].sched.set_thread_priority(slot, priority);
        let _ = self.cpus[i].sched.set_thread_correlation(slot, correlation);
        assert(self@ =~= v.lent(cpu, slot, priority, correlation, txn));
    }

    /// Gives the callee of the call `txn` its own priority and cause back, unless
    /// a later call's are lent to it.
    fn restore(&mut self, cpu: u32, slot: usize, txn: u64)
        requires
            old(self).wf(),
            slot < MAX_THREADS,
        ensures
            final(self).wf(),
            final(self)@ == old(self)@.restored(cpu, slot, txn),
    {
        let i: usize = seat_of(cpu);
        let ghost v = self@;
        assert(self@.cpus[i as int] == self.cpus@[i as int]@);
        let l: Loan = match self.cpus[i].loans[slot] {
            None => {
                return;
            },
            Some(l) => l,
        };
        if l.txn != txn {
            return;
        }
        let own: bool = match self.cpus[i].sched.thread_id(slot) {
            Some(id) => id == l.callee,
            None => false,
        };
        if !own {
            return;
        }
        self.cpus[i].loans[slot] = None;
        self.cpus[i].sched.set_thread_priority(slot, l.priority);
        let _ = self.cpus[i].sched.set_thread_correlation(slot, l.correlation);
        assert(self@ =~= v.restored(cpu, slot, txn));
    }

    /// Whether `thread` was the caller of something that was given up on,
    /// consuming the record.
    fn take_expired(&mut self, thread: ThreadId) -> (b: bool)
        requires
            old(self).wf(),
        ensures
            final(self).wf(),
            b == (old(self)@.expired_at(thread) < old(self)@.machine.expired_callers.len()),
            final(self)@ == (if b {
                old(self)@.expiry_taken(thread)
            } else {
                old(self)@
            }),
    {
        let ghost v = self@;
        let ghost p = crate::process::is_thread(thread);
        let mut i: usize = 0;
        while i < self.machine.expired_callers.len()
            invariant
                self.wf(),
                *self == *old(self),
                v == old(self)@,
                p == crate::process::is_thread(thread),
                i <= v.machine.expired_callers.len(),
                forall|j: int| 0 <= j < i ==> !p(#[trigger] v.machine.expired_callers[j]),
            decreases v.machine.expired_callers.len() - i,
        {
            if let Some(t) = self.machine.expired_callers[i] {
                if t == thread {
                    proof {
                        slots::lemma_first_is(v.machine.expired_callers, p, i as int);
                    }
                    self.machine.expired_callers[i] = None;
                    assert(self@ =~= v.expiry_taken(thread));
                    return true;
                }
            }
            i += 1;
        }
        proof {
            slots::lemma_first_is(v.machine.expired_callers, p, i as int);
        }
        false
    }

    /// Makes a synchronous call: queues `request` at the other end of `from`,
    /// hands off directly to a callee waiting there, and parks the caller until
    /// its reply. The caller's priority and cause go to the callee for the
    /// call; the chain of nested calls is bounded, and one end has at most one
    /// unanswered call. When the caller runs again it finishes with
    /// [`call_resume`](Self::call_resume).
    pub fn call(&mut self, cpu: u32, from: EndpointId, request: Message) -> (r: CallStep)
        requires
            old(self).wf(),
            from.side < 2,
            request.wf(),
            old(self)@.can_switch(cpu),
            old(self)@.local(cpu).next_txn < u64::MAX,
        ensures
            final(self).wf(),
            call_step(old(self)@.entered(cpu, Site::Call), final(self)@, cpu, from, request@, r),
    {
        self.enter_blocking(cpu, Site::Call);
        let r = self.call_inside(cpu, from, request);
        if let CallStep::Refused(_) = r {
            self.leave_blocking(cpu, Site::Call);
        }
        r
    }

    /// Makes a call, being inside it.
    fn call_inside(&mut self, cpu: u32, from: EndpointId, request: Message) -> (r: CallStep)
        requires
            old(self).wf(),
            from.side < 2,
            request.wf(),
            old(self)@.can_switch(cpu),
            old(self)@.local(cpu).next_txn < u64::MAX,
        ensures
            final(self).wf(),
            call_step(
                old(self)@,
                if r is Refused {
                    final(self)@.left(cpu, Site::Call)
                } else {
                    final(self)@
                },
                cpu,
                from,
                request@,
                r,
            ),
    {
        let ghost m = request@;
        let ghost v = self@;
        let caller: usize = match self.scheduler(cpu).current() {
            None => {
                return CallStep::Refused(KError::BadHandle);
            },
            Some(i) => i,
        };
        let caller_id: ThreadId = match self.scheduler(cpu).thread_id(caller) {
            None => {
                return CallStep::Refused(KError::BadHandle);
            },
            Some(id) => id,
        };
        let depth: u8 = self.depth_of(cpu, caller);
        if depth >= MAX_SYNC_DEPTH {
            return CallStep::Refused(KError::Protocol);
        }
        let txn: u64 = self.mint_txn(cpu);
        let ghost u = self@;
        let mut request = request;
        request.set_txn(txn);
        // The request carries the caller's cause, like the transaction.
        let correlation: u64 = match self.scheduler(cpu).thread_correlation(caller) {
            Some(c) => c,
            None => 0,
        };
        request.set_correlation(correlation);
        let to = peer_of(from);
        match self.end_state(from) {
            None => {
                return CallStep::Refused(KError::BadHandle);
            },
            Some(s) => {
                // One unanswered call per end: a second would take the first
                // one's reply.
                if s.caller.is_some() {
                    return CallStep::Refused(KError::Protocol);
                }
            },
        }
        let callee: Option<ThreadId> = self.endpoint_receiver(to);
        let destination: Option<ObjectId> = self.machine.channels.endpoint_object(to);
        let priority: u8 = match self.scheduler(cpu).thread_priority(caller) {
            Some(p) => p,
            None => 0,
        };
        // Delivered first: this is the step that can fail, and until it
        // succeeds there is no call for a reply to answer.
        if let Err(e) = self.end_enqueue(to, request) {
            return CallStep::Refused(e);
        }
        self.end_set_receiver(to, None);
        self.end_set_caller(from, Some((caller_id, txn)));
        let ghost delivered = self@;
        proof {
            let e = u.end(to)->0;
            lemma_end_of_with_end(u, to, e.enqueued(request@));
            assert(request@ == m.with_txn(txn).with_correlation(u.running(cpu)->0.correlation));
        }
        self.signal_endpoint_arrival(cpu, destination);
        proof {
            lemma_arrived_frame(delivered, cpu, destination);
        }
        self.set_depth(cpu, caller, depth + 1);
        let ghost c = self@;
        assert(c == u.called(cpu, from, m, txn));
        let at = match callee {
            Some(id) => self.locate_thread(cpu, id),
            None => Residence::Gone,
        };
        match at {
            Residence::Here(i) => {
                proof {
                    slots::lemma_first(
                        c.sched(cpu).threads,
                        crate::sched::live_as(callee->0),
                    );
                }
                self.lend(cpu, i, priority, correlation, txn);
                let s = self.park_handoff_to(cpu, i);
                CallStep::Parked(PendingCall { caller, from, txn, callee: Some(i) }, s)
            },
            Residence::Elsewhere { cpu: other, slot } => {
                if let Some(id) = callee {
                    self.post(other, slot, id);
                }
                let s = self.park_current(cpu);
                CallStep::Parked(PendingCall { caller, from, txn, callee: None }, s)
            },
            Residence::Gone => {
                let s = self.park_current(cpu);
                CallStep::Parked(PendingCall { caller, from, txn, callee: None }, s)
            },
        }
    }

    /// Finishes a call when its caller runs again: the reply matched by
    /// transaction; [`KError::TimedOut`] if the kernel gave up waiting,
    /// [`KError::PeerClosed`] if no answer is coming, [`KError::Protocol`] if
    /// what is queued answers somebody else.
    pub fn call_resume(&mut self, cpu: u32, call: PendingCall) -> (r: Result<Message, KError>)
        requires
            old(self).wf(),
            call.from.side < 2,
            call.caller < MAX_THREADS,
            call.callee matches Some(i) ==> i < MAX_THREADS,
            old(self)@.local(cpu).sync_depth[call.caller as int] > 0,
        ensures
            final(self).wf(),
            r matches Ok(m) ==> m.wf(),
            resume_step(old(self)@, final(self)@, cpu, call, r),
    {
        let depth: u8 = self.depth_of(cpu, call.caller);
        self.leave_blocking(cpu, Site::Call);
        self.set_depth(cpu, call.caller, depth - 1);
        if let Some(i) = call.callee {
            self.restore(cpu, i, call.txn);
        }
        let ghost u = self@;
        if let Some(id) = self.scheduler(cpu).thread_id(call.caller) {
            if self.take_expired(id) {
                self.end_set_caller(call.from, None);
                return Err(KError::TimedOut);
            }
        }
        let ghost t = u.machine.channels;
        let mut r: Result<Message, KError> = Err(KError::BadHandle);
        if let Some(c) = self.machine.channels.channel_mut(call.from.channel) {
            let e = c.endpoint_mut(call.from.side);
            let ghost before = (*e)@;
            e.set_pending_caller(None);
            let ghost cleared = (*e)@;
            match e.take_reply(call.txn) {
                Some(reply) => {
                    r = Ok(reply);
                    assert((*e)@ =~= EndpointView {
                        queue: before.queue.remove(before.reply_at(call.txn)),
                        pending_caller: None,
                        ..before
                    });
                },
                None => {
                    if e.is_empty() {
                        r = Err(KError::PeerClosed);
                    } else {
                        r = Err(KError::Protocol);
                    }
                },
            }
        }
        proof {
            assert(self@ =~= u.with_channels(self.machine.channels@));
            assert(u.with_channels(t) =~= u);
        }
        r
    }
}

} // verus!
