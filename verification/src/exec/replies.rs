//! The serving side of channels: replies, the combined reply and receive,
//! receives over several endpoints, and closing.
use vstd::prelude::*;
use crate::config::MAX_CHANNELS;
use crate::error::KError;
use crate::exec::messaging::{lemma_same_end, peer_of, receive_step};
use crate::exec::ports::Step;
use crate::exec::{ExecView, Executive, Residence};
use crate::handle::contains_id;
use crate::ipc::{object_at, EndpointId, EndpointView, Message, MessageView};
use crate::object::ObjectId;
use crate::occupancy::Site;
use crate::sched::Switch;
use crate::slots;
use crate::thread::ThreadId;

verus! {

impl ExecView {
    /// What answering the call received on `on` comes to: the caller that now
    /// has a reply, nobody, or why it could not be delivered.
    pub open spec fn reply_result(self, on: EndpointId) -> Result<Option<ThreadId>, KError> {
        match self.end(on.peer()) {
            None => Err(KError::BadHandle),
            Some(e) => match e.pending_caller {
                Some((caller, _)) => if e.full() {
                    Err(KError::WouldBlock)
                } else {
                    Ok(Some(caller))
                },
                None => if !e.abandoned && e.full() {
                    Err(KError::WouldBlock)
                } else {
                    Ok(None)
                },
            },
        }
    }

    /// The executive after `m` answers the call received on `on`: queued where
    /// the caller looks for it, stamped with the transaction it answers. A call
    /// that was given up on has its answer dropped; one that was never made has
    /// it queued as it is.
    pub open spec fn replied(self, on: EndpointId, m: MessageView) -> ExecView {
        let to = on.peer();
        match self.end(to) {
            None => self,
            Some(e) => match e.pending_caller {
                Some((_, txn)) => if e.full() {
                    self
                } else {
                    self.with_end(to, e.enqueued(m.with_txn(txn)).with_caller(None))
                },
                None => if e.abandoned {
                    self.with_end(to, EndpointView { abandoned: false, ..e })
                } else if e.full() {
                    self
                } else {
                    self.with_end(to, e.enqueued(m))
                },
            },
        }
    }

    /// The executive after `endpoint`, whose channel exists, is closed: the
    /// other end knows, and whoever waits there is woken, be it a receiver, a
    /// caller or both.
    pub open spec fn closed(self, cpu: u32, endpoint: EndpointId) -> ExecView {
        let e = self.end(endpoint.peer())->0;
        self.with_end(endpoint.peer(), EndpointView { peer_closed: true, ..e }).woken_if(
            cpu,
            e.blocked_receiver,
        ).woken_if(
            cpu,
            match e.pending_caller {
                Some((t, _)) => Some(t),
                None => None,
            },
        )
    }

    /// With `thread` as the blocked receiver of the first `n` of `endpoints`.
    pub open spec fn receivers_set(
        self,
        endpoints: Seq<EndpointId>,
        n: int,
        thread: Option<ThreadId>,
    ) -> ExecView
        decreases n,
    {
        if n <= 0 {
            self
        } else {
            self.receivers_set(endpoints, n - 1, thread).receiver_set(endpoints[n - 1], thread)
        }
    }

    /// With the receive deadline of the running thread, if any, set.
    pub open spec fn deadline_set(self, cpu: u32, deadline: Option<u64>) -> ExecView {
        match self.sched(cpu).current {
            Some(i) => self.with_sched(cpu, self.sched(cpu).with_deadline(i, deadline)),
            None => self,
        }
    }

    /// The predicate of an endpoint at which a scan stops: it has a message, or
    /// it does not exist.
    pub open spec fn stops(self) -> spec_fn(EndpointId) -> bool {
        |id: EndpointId| self.end(id) is None || self.has_message(id)
    }

    /// The predicate of an endpoint whose peer may still speak.
    pub open spec fn may_speak(self) -> spec_fn(EndpointId) -> bool {
        |id: EndpointId| self.end(id) matches Some(e) && !e.peer_closed
    }
}

/// Whether `deadline` has passed at `now`.
pub open spec fn passed(deadline: Option<u64>, now: u64) -> bool {
    deadline matches Some(at) && now >= at
}

/// What answering a call and handing the processor to its caller comes to, from
/// the state in which the server is inside. Where there is no switch to make
/// the server is out again.
pub open spec fn reply_step(
    v: ExecView,
    w: ExecView,
    cpu: u32,
    on: EndpointId,
    m: MessageView,
    r: Result<Option<Switch>, KError>,
) -> bool {
    let d = v.replied(on, m);
    match v.reply_result(on) {
        Err(e) => r == Err::<Option<Switch>, _>(e) && w == d.left(cpu, Site::Reply),
        Ok(None) => r == Ok::<_, KError>(None::<Switch>) && w == d.left(cpu, Site::Reply),
        Ok(Some(caller)) => match d.residence(cpu, caller) {
            Residence::Here(i) => {
                &&& r == Ok::<_, KError>(Some(d.handoff_switch(cpu, i)))
                &&& w == d.handed_off(cpu, i)
            },
            Residence::Elsewhere { cpu: other, slot } => {
                &&& r == Ok::<_, KError>(None::<Switch>)
                &&& w == d.posted(other, slot, caller).left(cpu, Site::Reply)
            },
            Residence::Gone => {
                &&& r == Ok::<_, KError>(None::<Switch>)
                &&& w == d.left(cpu, Site::Reply)
            },
        },
    }
}

/// What one pass over `endpoints` comes to.
pub open spec fn scan_step(
    v: ExecView,
    w: ExecView,
    cpu: u32,
    endpoints: Seq<EndpointId>,
    deadline: Option<u64>,
    now: u64,
    r: Step<Result<(usize, Message), KError>>,
) -> bool {
    let at = slots::first(endpoints, v.stops());
    let out = v.left(cpu, Site::ReceiveAny);
    if at < endpoints.len() {
        if v.end(endpoints[at]) is None {
            w == out && r == Step::Done(Err::<(usize, Message), _>(KError::BadHandle))
        } else {
            &&& w == v.received(cpu, endpoints[at]).left(cpu, Site::ReceiveAny)
            &&& r matches Step::Done(done)
            &&& done matches Ok((index, m))
            &&& index == at
            &&& m.wf()
            &&& m@ == v.end(endpoints[at])->0.queue[0]
        }
    } else if !slots::any(endpoints, v.may_speak()) {
        w == out && r == Step::Done(Err::<(usize, Message), _>(KError::PeerClosed))
    } else if passed(deadline, now) {
        w == out && r == Step::Done(Err::<(usize, Message), _>(KError::TimedOut))
    } else {
        match v.running_id(cpu) {
            None => w == out && r == Step::Done(Err::<(usize, Message), _>(KError::BadHandle)),
            Some(me) => {
                let p = v.deadline_set(cpu, deadline).receivers_set(
                    endpoints,
                    endpoints.len() as int,
                    Some(me),
                );
                w == p.parked(cpu) && r == Step::<Result<(usize, Message), KError>>::Park(
                    p.park_switch(cpu),
                )
            },
        }
    }
}

impl Executive {
    /// Puts `response` where the caller is waiting, stamped with the
    /// transaction it answers, or discards it if the call it answers was given
    /// up on. The stamp is the kernel's: a reply cannot claim to answer a call
    /// it was not asked.
    fn deliver_reply(&mut self, on: EndpointId, response: Message) -> (r: Result<
        Option<ThreadId>,
        KError,
    >)
        requires
            old(self).wf(),
            on.side < 2,
            response.wf(),
        ensures
            final(self).wf(),
            r == old(self)@.reply_result(on),
            final(self)@ == old(self)@.replied(on, response@),
    {
        let to = peer_of(on);
        let ghost v = self@;
        let ghost t = v.machine.channels;
        let mut response = response;
        let mut r: Result<Option<ThreadId>, KError> = Err(KError::BadHandle);
        if let Some(c) = self.machine.channels.channel_mut(to.channel) {
            let e = c.endpoint_mut(to.side);
            let ghost before = (*e)@;
            match e.pending_caller() {
                None => {
                    if e.take_abandoned() {
                        r = Ok(None);
                    } else {
                        assert((*e)@ =~= before);
                        r = match e.enqueue(response) {
                            Ok(_) => Ok(None),
                            Err(err) => Err(err),
                        };
                    }
                },
                Some((caller, txn)) => {
                    response.set_txn(txn);
                    r = match e.enqueue(response) {
                        Err(err) => Err(err),
                        Ok(_) => {
                            // The call stops being outstanding here, not when
                            // its caller runs.
                            e.set_pending_caller(None);
                            Ok(Some(caller))
                        },
                    };
                },
            }
        }
        proof {
            assert(self@ =~= v.with_channels(self.machine.channels@));
            assert(v.with_channels(t) =~= v);
            lemma_same_end(v, to);
        }
        r
    }

    /// Replies to an outstanding call received on `on` and hands off directly
    /// back to the caller, finishing with [`reply_resume`](Self::reply_resume)
    /// when it runs again. If no caller waits, the response is queued and the
    /// replier keeps running; a caller on another CPU is woken there.
    pub fn reply(&mut self, cpu: u32, on: EndpointId, response: Message) -> (r: Result<
        Option<Switch>,
        KError,
    >)
        requires
            old(self).wf(),
            on.side < 2,
            response.wf(),
            old(self)@.can_switch(cpu),
        ensures
            final(self).wf(),
            reply_step(
                old(self)@.entered(cpu, Site::Reply),
                final(self)@,
                cpu,
                on,
                response@,
                r,
            ),
    {
        self.enter_blocking(cpu, Site::Reply);
        let caller: ThreadId = match self.deliver_reply(on, response) {
            Err(e) => {
                self.leave_blocking(cpu, Site::Reply);
                return Err(e);
            },
            Ok(None) => {
                self.leave_blocking(cpu, Site::Reply);
                return Ok(None);
            },
            Ok(Some(t)) => t,
        };
        let ghost w = self@;
        match self.locate_thread(cpu, caller) {
            Residence::Here(i) => {
                proof {
                    slots::lemma_first(w.sched(cpu).threads, crate::sched::live_as(caller));
                }
                Ok(Some(self.park_handoff_to(cpu, i)))
            },
            Residence::Elsewhere { cpu: other, slot } => {
                self.post(other, slot, caller);
                self.leave_blocking(cpu, Site::Reply);
                Ok(None)
            },
            Residence::Gone => {
                self.leave_blocking(cpu, Site::Reply);
                Ok(None)
            },
        }
    }

    /// What a server that handed its processor over in [`reply`](Self::reply)
    /// does when it runs again.
    pub fn reply_resume(&mut self, cpu: u32)
        requires
            old(self).wf(),
        ensures
            final(self).wf(),
            final(self)@ == old(self)@.left(cpu, Site::Reply),
    {
        self.leave_blocking(cpu, Site::Reply);
    }

    /// Replies to the outstanding call on `on` and stays runnable: the caller is
    /// made ready rather than handed off to. What a server that waits on a port
    /// uses.
    pub fn reply_and_continue(&mut self, cpu: u32, on: EndpointId, response: Message) -> (r: Result<
        (),
        KError,
    >)
        requires
            old(self).wf(),
            on.side < 2,
            response.wf(),
        ensures
            final(self).wf(),
            ({
                let v = old(self)@;
                let w = v.replied(on, response@);
                match v.reply_result(on) {
                    Err(e) => r == Err::<(), _>(e) && final(self)@ == w,
                    Ok(caller) => r is Ok && final(self)@ == w.woken_if(cpu, caller),
                }
            }),
    {
        match self.deliver_reply(on, response) {
            Err(e) => Err(e),
            Ok(caller) => {
                self.wake_if(cpu, caller);
                Ok(())
            },
        }
    }

    /// Replies to the outstanding call on `on` and waits for the next request
    /// in one operation. When nothing is queued, the server is registered as
    /// the receiver of `on` and hands off directly to the caller it answered;
    /// when it runs again it takes
    /// [`reply_receive_resume`](Self::reply_receive_resume). When the next
    /// request is already queued, or no other one can come, the server keeps
    /// running, and the caller it answered is made ready.
    pub fn reply_receive(&mut self, cpu: u32, on: EndpointId, response: Message) -> (r: Step<
        Result<Message, KError>,
    >)
        requires
            old(self).wf(),
            on.side < 2,
            response.wf(),
            old(self)@.can_switch(cpu),
        ensures
            final(self).wf(),
            reply_receive_step(
                old(self)@.entered(cpu, Site::ReplyReceive),
                final(self)@,
                cpu,
                on,
                response@,
                r,
            ),
    {
        self.enter_blocking(cpu, Site::ReplyReceive);
        let ghost v = self@;
        let me: ThreadId = match self.current_id(cpu) {
            None => {
                self.leave_blocking(cpu, Site::ReplyReceive);
                return Step::Done(Err(KError::BadHandle));
            },
            Some(id) => id,
        };
        let replied_to: Option<ThreadId> = match self.deliver_reply(on, response) {
            Err(e) => {
                self.leave_blocking(cpu, Site::ReplyReceive);
                return Step::Done(Err(e));
            },
            Ok(t) => t,
        };
        let ghost w = self@;
        let mut caller: Option<usize> = None;
        if let Some(id) = replied_to {
            match self.locate_thread(cpu, id) {
                Residence::Here(i) => {
                    proof {
                        slots::lemma_first(w.sched(cpu).threads, crate::sched::live_as(id));
                    }
                    caller = Some(i);
                },
                // Woken now: everything below either hands off or blocks.
                Residence::Elsewhere { cpu: other, slot } => {
                    self.post(other, slot, id);
                },
                Residence::Gone => {},
            }
        }
        let ghost u = self@;
        let state = match self.end_state(on) {
            None => {
                self.leave_blocking(cpu, Site::ReplyReceive);
                return Step::Done(Err(KError::BadHandle));
            },
            Some(s) => s,
        };
        if let Some(m) = self.end_dequeue(on) {
            if let Some(i) = caller {
                self.scheduler_at(cpu).unblock(i);
            }
            self.adopt_correlation(cpu, m.header().correlation);
            self.leave_blocking(cpu, Site::ReplyReceive);
            return Step::Done(Ok(m));
        }
        if state.peer_closed {
            // The caller has its answer, whoever else has gone.
            if let Some(i) = caller {
                self.scheduler_at(cpu).unblock(i);
            }
            self.leave_blocking(cpu, Site::ReplyReceive);
            return Step::Done(Err(KError::PeerClosed));
        }
        self.end_set_receiver(on, Some(me));
        match caller {
            Some(i) => Step::Park(self.park_handoff_to(cpu, i)),
            None => Step::Park(self.park_current(cpu)),
        }
    }

    /// What a server in [`reply_receive`](Self::reply_receive) does each time it
    /// runs again: receive, or park once more.
    pub fn reply_receive_resume(&mut self, cpu: u32, on: EndpointId) -> (r: Step<
        Result<Message, KError>,
    >)
        requires
            old(self).wf(),
            old(self)@.can_switch(cpu),
            on.side < 2,
        ensures
            final(self).wf(),
            receive_step(old(self)@, final(self)@, cpu, on, Site::ReplyReceive, r),
    {
        self.receive_inside(cpu, on, Site::ReplyReceive)
    }

    /// Receives on the first of `endpoints` that has a message, or parks on all
    /// of them; the thread finishes with
    /// [`receive_any_resume`](Self::receive_any_resume). Says which endpoint
    /// answered. An endpoint whose peer has closed is skipped; when every peer
    /// has gone no message is coming. The deadline ends the wait.
    pub fn receive_any(
        &mut self,
        cpu: u32,
        endpoints: &Vec<EndpointId>,
        deadline: Option<u64>,
        now: u64,
    ) -> (r: Step<Result<(usize, Message), KError>>)
        requires
            old(self).wf(),
            old(self)@.can_switch(cpu),
            forall|i: int| 0 <= i < endpoints@.len() ==> (#[trigger] endpoints@[i]).side < 2,
        ensures
            final(self).wf(),
            if endpoints@.len() == 0 {
                &&& r == Step::Done(Err::<(usize, Message), _>(KError::InvalidArgument))
                &&& final(self)@ == old(self)@.entered(cpu, Site::ReceiveAny).left(
                    cpu,
                    Site::ReceiveAny,
                )
            } else {
                scan_step(
                    old(self)@.entered(cpu, Site::ReceiveAny),
                    final(self)@,
                    cpu,
                    endpoints@,
                    deadline,
                    now,
                    r,
                )
            },
    {
        self.enter_blocking(cpu, Site::ReceiveAny);
        if endpoints.len() == 0 {
            self.leave_blocking(cpu, Site::ReceiveAny);
            return Step::Done(Err(KError::InvalidArgument));
        }
        self.scan(cpu, endpoints, deadline, now)
    }

    /// What a thread in [`receive_any`](Self::receive_any) does each time it
    /// runs again: its registration is cleared on every endpoint and its
    /// deadline with it, then the deadline is checked and the scan repeated.
    pub fn receive_any_resume(
        &mut self,
        cpu: u32,
        endpoints: &Vec<EndpointId>,
        deadline: Option<u64>,
        now: u64,
    ) -> (r: Step<Result<(usize, Message), KError>>)
        requires
            old(self).wf(),
            old(self)@.can_switch(cpu),
            forall|i: int| 0 <= i < endpoints@.len() ==> (#[trigger] endpoints@[i]).side < 2,
        ensures
            final(self).wf(),
            ({
                let v = old(self)@.receivers_set(
                    endpoints@,
                    endpoints@.len() as int,
                    None,
                ).deadline_set(cpu, None);
                if passed(deadline, now) {
                    &&& r == Step::Done(Err::<(usize, Message), _>(KError::TimedOut))
                    &&& final(self)@ == v.left(cpu, Site::ReceiveAny)
                } else {
                    scan_step(v, final(self)@, cpu, endpoints@, deadline, now, r)
                }
            }),
    {
        self.set_receivers(cpu, endpoints, None);
        self.set_deadline(cpu, None);
        if let Some(at) = deadline {
            if now >= at {
                self.leave_blocking(cpu, Site::ReceiveAny);
                return Step::Done(Err(KError::TimedOut));
            }
        }
        self.scan(cpu, endpoints, deadline, now)
    }

    fn set_receivers(&mut self, cpu: u32, endpoints: &Vec<EndpointId>, thread: Option<ThreadId>)
        requires
            old(self).wf(),
            forall|i: int| 0 <= i < endpoints@.len() ==> (#[trigger] endpoints@[i]).side < 2,
        ensures
            final(self).wf(),
            final(self)@ == old(self)@.receivers_set(
                endpoints@,
                endpoints@.len() as int,
                thread,
            ),
            final(self)@.can_switch(cpu) == old(self)@.can_switch(cpu),
    {
        let ghost v = self@;
        let mut i: usize = 0;
        while i < endpoints.len()
            invariant
                self.wf(),
                i <= endpoints@.len(),
                forall|k: int| 0 <= k < endpoints@.len() ==> (#[trigger] endpoints@[k]).side < 2,
                self@ == v.receivers_set(endpoints@, i as int, thread),
                self@.cpus == v.cpus,
            decreases endpoints@.len() - i,
        {
            self.end_set_receiver(endpoints[i], thread);
            i += 1;
        }
    }

    fn set_deadline(&mut self, cpu: u32, deadline: Option<u64>)
        requires
            old(self).wf(),
        ensures
            final(self).wf(),
            final(self)@ == old(self)@.deadline_set(cpu, deadline),
            final(self)@.can_switch(cpu) == old(self)@.can_switch(cpu),
            final(self)@.machine == old(self)@.machine,
    {
        let current: Option<usize> = self.scheduler(cpu).current();
        if let Some(i) = current {
            self.scheduler_at(cpu).set_recv_deadline(i, deadline);
        }
    }

    fn scan(&mut self, cpu: u32, endpoints: &Vec<EndpointId>, deadline: Option<u64>, now: u64) -> (r:
        Step<Result<(usize, Message), KError>>)
        requires
            old(self).wf(),
            old(self)@.can_switch(cpu),
            forall|i: int| 0 <= i < endpoints@.len() ==> (#[trigger] endpoints@[i]).side < 2,
        ensures
            final(self).wf(),
            scan_step(old(self)@, final(self)@, cpu, endpoints@, deadline, now, r),
    {
        let ghost v = self@;
        let ghost p = v.stops();
        let ghost q = v.may_speak();
        let mut live: bool = false;
        let mut i: usize = 0;
        while i < endpoints.len()
            invariant
                self.wf(),
                self@ == v,
                v == old(self)@,
                p == v.stops(),
                q == v.may_speak(),
                i <= endpoints@.len(),
                forall|k: int| 0 <= k < endpoints@.len() ==> (#[trigger] endpoints@[k]).side < 2,
                forall|k: int| 0 <= k < i ==> !p(#[trigger] endpoints@[k]),
                live == exists|k: int| 0 <= k < i && q(#[trigger] endpoints@[k]),
            decreases endpoints@.len() - i,
        {
            let id = endpoints[i];
            let state = match self.end_state(id) {
                None => {
                    proof {
                        assert(p(endpoints@[i as int]));
                        slots::lemma_first_is(endpoints@, p, i as int);
                    }
                    self.leave_blocking(cpu, Site::ReceiveAny);
                    return Step::Done(Err(KError::BadHandle));
                },
                Some(s) => s,
            };
            if let Some(m) = self.end_dequeue(id) {
                proof {
                    assert(p(endpoints@[i as int]));
                    slots::lemma_first_is(endpoints@, p, i as int);
                }
                self.adopt_correlation(cpu, m.header().correlation);
                self.leave_blocking(cpu, Site::ReceiveAny);
                return Step::Done(Ok((i, m)));
            }
            if !state.peer_closed {
                assert(q(endpoints@[i as int]));
                live = true;
            }
            i += 1;
        }
        proof {
            slots::lemma_first_is(endpoints@, p, i as int);
        }
        if !live {
            self.leave_blocking(cpu, Site::ReceiveAny);
            return Step::Done(Err(KError::PeerClosed));
        }
        if let Some(at) = deadline {
            if now >= at {
                self.leave_blocking(cpu, Site::ReceiveAny);
                return Step::Done(Err(KError::TimedOut));
            }
        }
        let me: ThreadId = match self.current_id(cpu) {
            None => {
                self.leave_blocking(cpu, Site::ReceiveAny);
                return Step::Done(Err(KError::BadHandle));
            },
            Some(id) => id,
        };
        self.set_deadline(cpu, deadline);
        self.set_receivers(cpu, endpoints, Some(me));
        Step::Park(self.park_current(cpu))
    }

    /// Closes `endpoint`, raising peer-closed on the other end and waking any
    /// receiver blocked there or caller awaiting a reply there.
    pub fn close_endpoint(&mut self, cpu: u32, endpoint: EndpointId) -> (r: Result<(), KError>)
        requires
            old(self).wf(),
            endpoint.side < 2,
        ensures
            final(self).wf(),
            match old(self)@.end(endpoint) {
                None => r == Err::<(), _>(KError::BadHandle) && final(self)@ == old(self)@,
                Some(_) => r is Ok && final(self)@ == old(self)@.closed(cpu, endpoint),
            },
    {
        let ghost v = self@;
        let to = peer_of(endpoint);
        let state = match self.end_state(to) {
            None => {
                return Err(KError::BadHandle);
            },
            Some(s) => s,
        };
        if let Some(c) = self.machine.channels.channel_mut(endpoint.channel) {
            c.close_side(endpoint.side);
        }
        assert(self@ =~= v.with_channels(self.machine.channels@));
        self.wake_if(cpu, state.receiver);
        if let Some((caller, _)) = state.caller {
            let _ = self.wake_thread(cpu, caller);
        }
        Ok(())
    }

    /// Closes every endpoint whose object one of `held` names and whose other
    /// end has a caller awaiting a reply: what a dying process has to do to its
    /// channels. A peer merely parked in a receive is left to the replacement.
    /// Returns how many were closed.
    pub fn close_endpoints_of(&mut self, cpu: u32, held: &Vec<ObjectId>) -> (n: usize)
        requires
            old(self).wf(),
        ensures
            final(self).wf(),
            final(self)@ == closing(old(self)@, cpu, held@, 2 * MAX_CHANNELS as int).0,
            n == closing(old(self)@, cpu, held@, 2 * MAX_CHANNELS as int).1,
    {
        let ghost v = self@;
        let mut n: usize = 0;
        let mut k: usize = 0;
        while k < 2 * MAX_CHANNELS
            invariant
                self.wf(),
                k <= 2 * MAX_CHANNELS,
                n <= k,
                self@ == closing(v, cpu, held@, k as int).0,
                n == closing(v, cpu, held@, k as int).1,
            decreases 2 * MAX_CHANNELS - k,
        {
            let id = EndpointId { channel: k / 2, side: k % 2 };
            assert(id == place(k as int));
            if self.is_owed(id, held) {
                let r = self.close_endpoint(cpu, id);
                if r.is_ok() {
                    n += 1;
                }
            }
            k += 1;
        }
        n
    }

    fn is_owed(&self, id: EndpointId, held: &Vec<ObjectId>) -> (b: bool)
        requires
            self.wf(),
            id.side < 2,
        ensures
            b == owes_reply(self@, id, held@),
    {
        match self.machine.channels.endpoint_object(id) {
            None => false,
            Some(object) => {
                if !contains_id(held, object) {
                    return false;
                }
                match self.end_state(peer_of(id)) {
                    None => false,
                    Some(s) => s.caller.is_some(),
                }
            },
        }
    }
}

/// The `k`-th endpoint of the machine.
pub open spec fn place(k: int) -> EndpointId {
    EndpointId { channel: (k / 2) as usize, side: (k % 2) as usize }
}

/// Whether `id` is known by an object in `held` and somebody at its other end
/// awaits a reply.
pub open spec fn owes_reply(v: ExecView, id: EndpointId, held: Seq<ObjectId>) -> bool {
    &&& object_at(v.machine.channels, id) matches Some(o)
    &&& held.contains(o)
    &&& v.end(id.peer()) matches Some(e)
    &&& e.pending_caller is Some
}

/// The executive after the first `k` endpoints have been looked at and those
/// that owe a reply closed, and how many that was.
pub open spec fn closing(v: ExecView, cpu: u32, held: Seq<ObjectId>, k: int) -> (ExecView, nat)
    decreases k,
{
    if k <= 0 {
        (v, 0)
    } else {
        let (w, n) = closing(v, cpu, held, k - 1);
        if owes_reply(w, place(k - 1), held) {
            (w.closed(cpu, place(k - 1)), n + 1)
        } else {
            (w, n)
        }
    }
}

/// What a reply-and-receive comes to, from the state in which the server is
/// inside.
pub open spec fn reply_receive_step(
    v: ExecView,
    w: ExecView,
    cpu: u32,
    on: EndpointId,
    m: MessageView,
    r: Step<Result<Message, KError>>,
) -> bool {
    let site = Site::ReplyReceive;
    if v.running_id(cpu) is None {
        w == v.left(cpu, site) && r == Step::Done(Err::<Message, _>(KError::BadHandle))
    } else {
        let d = v.replied(on, m);
        match v.reply_result(on) {
            Err(e) => w == d.left(cpu, site) && r == Step::Done(Err::<Message, _>(e)),
            Ok(answered) => {
                let at = match answered {
                    Some(id) => d.residence(cpu, id),
                    None => Residence::Gone,
                };
                let u = match at {
                    Residence::Elsewhere { cpu: other, slot } => d.posted(
                        other,
                        slot,
                        answered->0,
                    ),
                    _ => d,
                };
                let e = u.end(on)->0;
                if e.queue.len() > 0 {
                    let taken = u.with_end(on, e.dequeued());
                    let ready = match at {
                        Residence::Here(i) => taken.with_sched(
                            cpu,
                            taken.sched(cpu).unblocked(i),
                        ),
                        _ => taken,
                    };
                    &&& w == ready.adopting(cpu, e.queue[0].header.correlation).left(cpu, site)
                    &&& r matches Step::Done(done)
                    &&& done matches Ok(request)
                    &&& request.wf()
                    &&& request@ == e.queue[0]
                } else if e.peer_closed {
                    let ready = match at {
                        Residence::Here(i) => u.with_sched(cpu, u.sched(cpu).unblocked(i)),
                        _ => u,
                    };
                    w == ready.left(cpu, site) && r == Step::Done(
                        Err::<Message, _>(KError::PeerClosed),
                    )
                } else {
                    let p = u.with_end(on, e.with_receiver(Some(v.running_id(cpu)->0)));
                    match at {
                        Residence::Here(i) => {
                            &&& w == p.handed_off(cpu, i)
                            &&& r == Step::<Result<Message, KError>>::Park(
                                p.handoff_switch(cpu, i),
                            )
                        },
                        _ => {
                            &&& w == p.parked(cpu)
                            &&& r == Step::<Result<Message, KError>>::Park(p.park_switch(cpu))
                        },
                    }
                }
            },
        }
    }
}

} // verus!
