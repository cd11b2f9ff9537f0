//! Channels: bidirectional, ordered message transport between two endpoints.
//! A message carries a header, a bounded inline payload and a few conserved
//! handle references. Each endpoint has a bounded FIFO queue; the executive
//! decides who waits and who is woken.
use vstd::prelude::*;
use crate::config::{MAX_CHANNELS, MAX_INLINE_BYTES, MAX_MSG_HANDLES};
use crate::error::KError;
use crate::object::ObjectId;
use crate::rights::Rights;
use crate::slots;
use crate::thread::ThreadId;

verus! {

/// Messages an endpoint queues before a sender is told to wait.
pub const QUEUE_CAP: usize = 8;

/// The port signal a message arrival raises on the destination endpoint's
/// object, so a server that binds a port to several endpoints learns which one
/// has work.
pub const SIGNAL_MESSAGE: u8 = 2;

/// The version stamped into the wire form of a header. Version 2 added the
/// 128-bit correlation id.
pub const MESSAGE_HEADER_WIRE_VERSION: u32 = 2;

/// A message's header. `correlation` is the sequence half of the causal id,
/// stamped by the kernel from the sending thread and never supplied by a
/// sender; 0 means that no cause is recorded.
#[derive(Clone, Copy, PartialEq, Eq, Debug, Structural)]
pub struct MessageHeader {
    pub interface_id: u64,
    pub method_id: u32,
    pub flags: u32,
    pub txn_id: u64,
    pub correlation: u64,
}

/// The header as it crosses a byte boundary: the in-memory fields plus the
/// `size` and `version` envelope, with flags and correlation at their full
/// width.
#[derive(Clone, Copy, PartialEq, Eq, Debug, Structural)]
pub struct WireMessageHeader {
    pub size: u32,
    pub version: u32,
    pub flags: u64,
    pub interface_id: u64,
    pub txn_id: u64,
    pub method_id: u32,
    pub correlation_lo: u64,
    pub correlation_hi: u64,
}

impl WireMessageHeader {
    /// Bytes in the encoded header.
    pub const WIRE_SIZE: usize = 52;
}

/// The wire form of `h` in the boot whose epoch is `epoch`.
pub open spec fn wire_form(h: MessageHeader, epoch: u64) -> WireMessageHeader {
    WireMessageHeader {
        size: WireMessageHeader::WIRE_SIZE as u32,
        version: MESSAGE_HEADER_WIRE_VERSION,
        flags: h.flags as u64,
        interface_id: h.interface_id,
        txn_id: h.txn_id,
        method_id: h.method_id,
        correlation_lo: h.correlation,
        correlation_hi: epoch,
    }
}

impl MessageHeader {
    pub fn new(interface_id: u64, method_id: u32) -> (h: MessageHeader)
        ensures
            h == (MessageHeader { interface_id, method_id, flags: 0, txn_id: 0, correlation: 0 }),
    {
        MessageHeader { interface_id, method_id, flags: 0, txn_id: 0, correlation: 0 }
    }

    /// The wire form of this header. `epoch` is the per-boot half of the causal
    /// id, which is constant within a boot and so not stored per message.
    pub fn to_wire(&self, epoch: u64) -> (w: WireMessageHeader)
        ensures
            w == wire_form(*self, epoch),
    {
        WireMessageHeader {
            size: WireMessageHeader::WIRE_SIZE as u32,
            version: MESSAGE_HEADER_WIRE_VERSION,
            flags: self.flags as u64,
            interface_id: self.interface_id,
            txn_id: self.txn_id,
            method_id: self.method_id,
            correlation_lo: self.correlation,
            correlation_hi: epoch,
        }
    }

    /// Rebuilds the in-memory header from its wire form, dropping the envelope
    /// and the epoch. A flag bit above 32 is rejected rather than narrowed:
    /// dropping it would leave a header whose flags say something the sender
    /// did not.
    pub fn from_wire(wire: &WireMessageHeader) -> (r: Result<MessageHeader, KError>)
        ensures
            match r {
                Ok(h) => {
                    &&& wire.flags <= u32::MAX
                    &&& h == (MessageHeader {
                        interface_id: wire.interface_id,
                        method_id: wire.method_id,
                        flags: wire.flags as u32,
                        txn_id: wire.txn_id,
                        correlation: wire.correlation_lo,
                    })
                },
                Err(e) => e == KError::Protocol && wire.flags > u32::MAX,
            },
    {
        if wire.flags > 0xffff_ffff {
            return Err(KError::Protocol);
        }
        Ok(
            MessageHeader {
                interface_id: wire.interface_id,
                method_id: wire.method_id,
                flags: wire.flags as u32,
                txn_id: wire.txn_id,
                correlation: wire.correlation_lo,
            },
        )
    }
}

/// A header survives the wire: what [`MessageHeader::from_wire`] rebuilds from
/// the form [`MessageHeader::to_wire`] gave is the header itself.
pub proof fn law_wire_round_trip(h: MessageHeader, epoch: u64)
    ensures
        wire_form(h, epoch).flags <= u32::MAX,
        h == (MessageHeader {
            interface_id: wire_form(h, epoch).interface_id,
            method_id: wire_form(h, epoch).method_id,
            flags: wire_form(h, epoch).flags as u32,
            txn_id: wire_form(h, epoch).txn_id,
            correlation: wire_form(h, epoch).correlation_lo,
        }),
{
}

/// A handle reference conserved through a message.
#[derive(Clone, Copy, PartialEq, Eq, Debug, Structural)]
pub struct TransferredHandle {
    pub object: ObjectId,
    pub rights: Rights,
}

/// A message: header, inline payload, transferred handles.
pub struct Message {
    header: MessageHeader,
    inline: Vec<u8>,
    handles: Vec<TransferredHandle>,
}

/// What a [`Message`] says.
#[verifier::ext_equal]
pub struct MessageView {
    pub header: MessageHeader,
    pub inline: Seq<u8>,
    pub handles: Seq<TransferredHandle>,
}

impl MessageView {
    pub open spec fn wf(self) -> bool {
        self.inline.len() <= MAX_INLINE_BYTES && self.handles.len() <= MAX_MSG_HANDLES
    }

    /// The message stamped with a transaction.
    pub open spec fn with_txn(self, txn_id: u64) -> MessageView {
        MessageView { header: MessageHeader { txn_id, ..self.header }, ..self }
    }

    /// The message stamped with a cause.
    pub open spec fn with_correlation(self, correlation: u64) -> MessageView {
        MessageView { header: MessageHeader { correlation, ..self.header }, ..self }
    }
}

impl View for Message {
    type V = MessageView;

    closed spec fn view(&self) -> MessageView {
        MessageView { header: self.header, inline: self.inline@, handles: self.handles@ }
    }
}

impl Message {
    /// The message's invariant: payload and handles within their bounds.
    pub open spec fn wf(&self) -> bool {
        self@.wf()
    }

    pub fn new(header: MessageHeader) -> (m: Message)
        ensures
            m.wf(),
            m@ == (MessageView { header, inline: Seq::empty(), handles: Seq::empty() }),
    {
        Message { header, inline: Vec::new(), handles: Vec::new() }
    }

    pub fn header(&self) -> (h: MessageHeader)
        ensures
            h == self@.header,
    {
        self.header
    }

    pub fn set_txn(&mut self, txn_id: u64)
        ensures
            final(self)@ == old(self)@.with_txn(txn_id),
            final(self)@.inline == old(self)@.inline,
            final(self)@.handles == old(self)@.handles,
            final(self)@.header == (MessageHeader { txn_id, ..old(self)@.header }),
            old(self).wf() ==> final(self).wf(),
    {
        self.header.txn_id = txn_id;
    }

    pub fn set_correlation(&mut self, correlation: u64)
        ensures
            final(self)@ == old(self)@.with_correlation(correlation),
            final(self)@.inline == old(self)@.inline,
            final(self)@.handles == old(self)@.handles,
            final(self)@.header == (MessageHeader { correlation, ..old(self)@.header }),
            old(self).wf() ==> final(self).wf(),
    {
        self.header.correlation = correlation;
    }

    /// Sets the inline payload; [`KError::Protocol`] when it does not fit.
    pub fn set_inline(&mut self, bytes: &[u8]) -> (r: Result<(), KError>)
        requires
            old(self).wf(),
        ensures
            final(self).wf(),
            match r {
                Ok(_) => {
                    &&& bytes@.len() <= MAX_INLINE_BYTES
                    &&& final(self)@ == (MessageView { inline: bytes@, ..old(self)@ })
                },
                Err(e) => {
                    &&& bytes@.len() > MAX_INLINE_BYTES
                    &&& e == KError::Protocol
                    &&& final(self)@ == old(self)@
                },
            },
    {
        if bytes.len() > MAX_INLINE_BYTES {
            return Err(KError::Protocol);
        }
        let mut inline: Vec<u8> = Vec::new();
        let mut i: usize = 0;
        while i < bytes.len()
            invariant
                i <= bytes@.len(),
                inline@ == bytes@.take(i as int),
            decreases bytes@.len() - i,
        {
            inline.push(bytes[i]);
            i += 1;
            assert(bytes@.take(i as int) =~= bytes@.take(i - 1).push(bytes@[i - 1]));
        }
        assert(bytes@.take(i as int) =~= bytes@);
        self.inline = inline;
        Ok(())
    }

    /// The inline payload.
    pub fn inline(&self) -> (bytes: &[u8])
        ensures
            bytes@ == self@.inline,
    {
        self.inline.as_slice()
    }

    /// Attaches a transferred handle; [`KError::Protocol`] when there is no
    /// room for it.
    pub fn add_handle(&mut self, handle: TransferredHandle) -> (r: Result<(), KError>)
        requires
            old(self).wf(),
        ensures
            final(self).wf(),
            match r {
                Ok(_) => {
                    &&& old(self)@.handles.len() < MAX_MSG_HANDLES
                    &&& final(self)@ == (MessageView {
                        handles: old(self)@.handles.push(handle),
                        ..old(self)@
                    })
                },
                Err(e) => {
                    &&& old(self)@.handles.len() == MAX_MSG_HANDLES
                    &&& e == KError::Protocol
                    &&& final(self)@ == old(self)@
                },
            },
    {
        if self.handles.len() >= MAX_MSG_HANDLES {
            return Err(KError::Protocol);
        }
        self.handles.push(handle);
        Ok(())
    }

    pub fn handle_count(&self) -> (n: usize)
        ensures
            n == self@.handles.len(),
    {
        self.handles.len()
    }

    /// The transferred handles, in the order they were attached.
    pub fn handles(&self) -> (h: &[TransferredHandle])
        ensures
            h@ == self@.handles,
    {
        self.handles.as_slice()
    }
}

/// One end of a channel.
pub struct Endpoint {
    /// A ring of [`QUEUE_CAP`] places; the `len` after `head` hold messages.
    queue: Vec<Option<Message>>,
    head: usize,
    len: usize,
    peer_closed: bool,
    /// The thread parked in a receive here.
    blocked_receiver: Option<ThreadId>,
    /// The thread whose call from here is unanswered, and its transaction.
    pending_caller: Option<(ThreadId, u64)>,
    /// A call from here was given up on and its answer has not come yet.
    abandoned: bool,
}

/// What an [`Endpoint`] holds; the queue is front first.
#[verifier::ext_equal]
pub struct EndpointView {
    pub queue: Seq<MessageView>,
    pub peer_closed: bool,
    pub blocked_receiver: Option<ThreadId>,
    pub pending_caller: Option<(ThreadId, u64)>,
    pub abandoned: bool,
}

/// The predicate of a message that answers transaction `txn`.
pub open spec fn answers(txn: u64) -> spec_fn(MessageView) -> bool {
    |m: MessageView| m.header.txn_id == txn
}

impl EndpointView {
    /// An endpoint nothing has happened to.
    pub open spec fn fresh() -> EndpointView {
        EndpointView {
            queue: Seq::empty(),
            peer_closed: false,
            blocked_receiver: None,
            pending_caller: None,
            abandoned: false,
        }
    }

    pub open spec fn wf(self) -> bool {
        &&& self.queue.len() <= QUEUE_CAP
        &&& forall|i: int| 0 <= i < self.queue.len() ==> (#[trigger] self.queue[i]).wf()
    }

    pub open spec fn full(self) -> bool {
        self.queue.len() == QUEUE_CAP
    }

    /// With `m` at the back of the queue.
    pub open spec fn enqueued(self, m: MessageView) -> EndpointView {
        EndpointView { queue: self.queue.push(m), ..self }
    }

    /// Without the message at the front.
    pub open spec fn dequeued(self) -> EndpointView {
        EndpointView { queue: self.queue.drop_first(), ..self }
    }

    /// With `thread` as the blocked receiver.
    pub open spec fn with_receiver(self, thread: Option<ThreadId>) -> EndpointView {
        EndpointView { blocked_receiver: thread, ..self }
    }

    /// With `caller` as the pending caller.
    pub open spec fn with_caller(self, caller: Option<(ThreadId, u64)>) -> EndpointView {
        EndpointView { pending_caller: caller, ..self }
    }

    /// After the pending call, if any, is given up on.
    pub open spec fn aborted(self) -> EndpointView {
        EndpointView {
            pending_caller: None,
            abandoned: self.abandoned || self.pending_caller is Some,
            ..self
        }
    }

    /// The place of the first message that answers `txn`, or the length.
    pub open spec fn reply_at(self, txn: u64) -> int {
        slots::first(self.queue, answers(txn))
    }
}

impl View for Endpoint {
    type V = EndpointView;

    closed spec fn view(&self) -> EndpointView {
        EndpointView {
            queue: Seq::new(
                self.len as nat,
                |i: int| self.queue@[slots::ring(self.head as int, i, QUEUE_CAP as int)]->0@,
            ),
            peer_closed: self.peer_closed,
            blocked_receiver: self.blocked_receiver,
            pending_caller: self.pending_caller,
            abandoned: self.abandoned,
        }
    }
}

impl Endpoint {
    /// The ring's invariant: exactly the `len` places after `head` are taken.
    pub closed spec fn ring_wf(&self) -> bool {
        &&& self.queue@.len() == QUEUE_CAP
        &&& self.head < QUEUE_CAP
        &&& self.len <= QUEUE_CAP
        &&& forall|i: int|
            0 <= i < self.len ==> self.queue@[#[trigger] slots::ring(
                self.head as int,
                i,
                QUEUE_CAP as int,
            )] is Some
    }

    /// The endpoint's invariant.
    pub open spec fn wf(&self) -> bool {
        self.ring_wf() && self@.wf()
    }

    fn new() -> (e: Endpoint)
        ensures
            e.wf(),
            e@ == EndpointView::fresh(),
    {
        let e = Endpoint {
            queue: slots::empty_slots(QUEUE_CAP),
            head: 0,
            len: 0,
            peer_closed: false,
            blocked_receiver: None,
            pending_caller: None,
            abandoned: false,
        };
        assert(e@ =~= EndpointView::fresh());
        e
    }

    /// Appends a message; [`KError::WouldBlock`] when the queue is full.
    pub fn enqueue(&mut self, message: Message) -> (r: Result<(), KError>)
        requires
            old(self).wf(),
            message.wf(),
        ensures
            final(self).wf(),
            match r {
                Ok(_) => !old(self)@.full() && final(self)@ == old(self)@.enqueued(message@),
                Err(e) => {
                    &&& e == KError::WouldBlock
                    &&& old(self)@.full()
                    &&& *final(self) == *old(self)
                },
            },
    {
        if self.len >= QUEUE_CAP {
            return Err(KError::WouldBlock);
        }
        let tail: usize = slots::ring_index(self.head, self.len, QUEUE_CAP);
        self.queue[tail] = Some(message);
        self.len += 1;
        assert(self@ =~= old(self)@.enqueued(message@));
        assert forall|i: int| 0 <= i < self.len implies self.queue@[#[trigger] slots::ring(
            self.head as int,
            i,
            QUEUE_CAP as int,
        )] is Some by {
            if i < old(self).len {
                assert(old(self).queue@[slots::ring(
                    old(self).head as int,
                    i,
                    QUEUE_CAP as int,
                )] is Some);
            }
        }
        Ok(())
    }

    /// Removes and returns the message at the front.
    pub fn dequeue(&mut self) -> (r: Option<Message>)
        requires
            old(self).wf(),
        ensures
            final(self).wf(),
            match r {
                Some(m) => {
                    &&& old(self)@.queue.len() > 0
                    &&& m.wf()
                    &&& m@ == old(self)@.queue[0]
                    &&& final(self)@ == old(self)@.dequeued()
                },
                None => old(self)@.queue.len() == 0 && *final(self) == *old(self),
            },
    {
        if self.len == 0 {
            return None;
        }
        let head: usize = self.head;
        assert(slots::ring(head as int, 0, QUEUE_CAP as int) == head);
        assert(self@.queue[0].wf());
        let message: Option<Message> = self.queue[head].take();
        self.head = slots::ring_index(head, 1, QUEUE_CAP);
        self.len -= 1;
        proof {
            assert forall|i: int| 0 <= i < self.len implies #[trigger] slots::ring(
                self.head as int,
                i,
                QUEUE_CAP as int,
            ) == slots::ring(head as int, i + 1, QUEUE_CAP as int) && slots::ring(
                self.head as int,
                i,
                QUEUE_CAP as int,
            ) != head by {}
            assert(self@ =~= old(self)@.dequeued());
        }
        message
    }

    /// Removes and returns the first message that answers transaction `txn`,
    /// leaving the others queued in their order.
    pub fn take_reply(&mut self, txn: u64) -> (r: Option<Message>)
        requires
            old(self).wf(),
        ensures
            final(self).wf(),
            match r {
                Some(m) => {
                    let at = old(self)@.reply_at(txn);
                    &&& at < old(self)@.queue.len()
                    &&& m.wf()
                    &&& m@ == old(self)@.queue[at]
                    &&& m@.header.txn_id == txn
                    &&& final(self)@ == (EndpointView {
                        queue: old(self)@.queue.remove(at),
                        ..old(self)@
                    })
                },
                None => {
                    &&& old(self)@.reply_at(txn) == old(self)@.queue.len()
                    &&& final(self)@ == old(self)@
                },
            },
    {
        let ghost q = self@.queue;
        let n: usize = self.len;
        let mut found: Option<Message> = None;
        let mut i: usize = 0;
        let ghost at = self@.reply_at(txn);
        proof {
            slots::lemma_first(q, answers(txn));
            assert(q.take(0) =~= Seq::<MessageView>::empty());
            assert(q.skip(0) + q.take(0) =~= q);
        }
        // One turn of the ring: every message leaves at the front, and all but
        // the reply come back at the end.
        while i < n
            invariant
                self.wf(),
                i <= n,
                n == q.len(),
                n <= QUEUE_CAP,
                at == slots::first(q, answers(txn)),
                0 <= at <= n,
                forall|j: int| 0 <= j < at ==> !answers(txn)(#[trigger] q[j]),
                at < n ==> answers(txn)(q[at]),
                found is Some == (at < i),
                found matches Some(m) ==> m.wf() && m@ == q[at],
                self@ == (EndpointView {
                    queue: if at < i {
                        q.skip(i as int) + q.take(i as int).remove(at)
                    } else {
                        q.skip(i as int) + q.take(i as int)
                    },
                    ..old(self)@
                }),
            decreases n - i,
        {
            let ghost before = self@.queue;
            let front = self.dequeue();
            if let Some(m) = front {
                proof {
                    assert(m@ == q[i as int]);
                    assert(before.drop_first() =~= if at < i {
                        q.skip(i + 1) + q.take(i as int).remove(at)
                    } else {
                        q.skip(i + 1) + q.take(i as int)
                    });
                }
                if found.is_none() && m.header().txn_id == txn {
                    assert(at == i);
                    assert(q.take(i + 1).remove(at) =~= q.take(i as int));
                    found = Some(m);
                } else {
                    let ghost mv = m@;
                    assert(at != i);
                    let _ = self.enqueue(m);
                    proof {
                        if at < i {
                            assert(self@.queue =~= q.skip(i + 1) + q.take(i + 1).remove(at));
                        } else {
                            assert(self@.queue =~= q.skip(i + 1) + q.take(i + 1));
                        }
                    }
                }
            }
            i += 1;
        }
        proof {
            assert(q.take(n as int) =~= q);
            assert(q.skip(n as int) =~= Seq::<MessageView>::empty());
            if at < n {
                assert(Seq::<MessageView>::empty() + q.remove(at) =~= q.remove(at));
            } else {
                assert(Seq::<MessageView>::empty() + q =~= q);
            }
        }
        found
    }

    pub fn is_empty(&self) -> (b: bool)
        requires
            self.wf(),
        ensures
            b == (self@.queue.len() == 0),
    {
        self.len == 0
    }

    pub fn queued(&self) -> (n: usize)
        requires
            self.wf(),
        ensures
            n == self@.queue.len(),
    {
        self.len
    }

    pub fn peer_closed(&self) -> (b: bool)
        ensures
            b == self@.peer_closed,
    {
        self.peer_closed
    }

    fn mark_peer_closed(&mut self)
        requires
            old(self).wf(),
        ensures
            final(self).wf(),
            final(self)@ == (EndpointView { peer_closed: true, ..old(self)@ }),
    {
        self.peer_closed = true;
        assert(self@ =~= EndpointView { peer_closed: true, ..old(self)@ });
    }

    pub fn blocked_receiver(&self) -> (r: Option<ThreadId>)
        ensures
            r == self@.blocked_receiver,
    {
        self.blocked_receiver
    }

    pub fn set_blocked_receiver(&mut self, thread: Option<ThreadId>)
        requires
            old(self).wf(),
        ensures
            final(self).wf(),
            final(self)@ == old(self)@.with_receiver(thread),
    {
        self.blocked_receiver = thread;
        assert(self@ =~= old(self)@.with_receiver(thread));
    }

    pub fn pending_caller(&self) -> (r: Option<(ThreadId, u64)>)
        ensures
            r == self@.pending_caller,
    {
        self.pending_caller
    }

    pub fn set_pending_caller(&mut self, caller: Option<(ThreadId, u64)>)
        requires
            old(self).wf(),
        ensures
            final(self).wf(),
            final(self)@ == old(self)@.with_caller(caller),
    {
        self.pending_caller = caller;
        assert(self@ =~= old(self)@.with_caller(caller));
    }

    /// Gives up on the unanswered call made from here, if there is one, and
    /// remembers that its answer is for nobody.
    pub fn abort_call(&mut self)
        requires
            old(self).wf(),
        ensures
            final(self).wf(),
            final(self)@ == old(self)@.aborted(),
    {
        if self.pending_caller.is_some() {
            self.abandoned = true;
        }
        self.pending_caller = None;
        assert(self@ =~= old(self)@.aborted());
    }

    /// Whether a call from here was given up on and not answered since,
    /// consuming the fact.
    pub fn take_abandoned(&mut self) -> (b: bool)
        requires
            old(self).wf(),
        ensures
            final(self).wf(),
            b == old(self)@.abandoned,
            final(self)@ == (EndpointView { abandoned: false, ..old(self)@ }),
    {
        let was: bool = self.abandoned;
        self.abandoned = false;
        assert(self@ =~= EndpointView { abandoned: false, ..old(self)@ });
        was
    }
}

/// A channel: two endpoints, and the object each end is known by.
pub struct Channel {
    end0: Endpoint,
    end1: Endpoint,
    object0: Option<ObjectId>,
    object1: Option<ObjectId>,
}

/// What a [`Channel`] holds, by side.
#[verifier::ext_equal]
pub struct ChannelView {
    pub ends: Seq<EndpointView>,
    pub objects: Seq<Option<ObjectId>>,
}

impl ChannelView {
    pub open spec fn fresh() -> ChannelView {
        ChannelView {
            ends: seq![EndpointView::fresh(), EndpointView::fresh()],
            objects: seq![None, None],
        }
    }

    pub open spec fn wf(self) -> bool {
        &&& self.ends.len() == 2
        &&& self.objects.len() == 2
        &&& self.ends[0].wf()
        &&& self.ends[1].wf()
    }

    /// With the endpoint on `side` replaced.
    pub open spec fn with_end(self, side: int, e: EndpointView) -> ChannelView {
        ChannelView { ends: self.ends.update(side, e), ..self }
    }
}

impl View for Channel {
    type V = ChannelView;

    closed spec fn view(&self) -> ChannelView {
        ChannelView {
            ends: seq![self.end0@, self.end1@],
            objects: seq![self.object0, self.object1],
        }
    }
}

impl Channel {
    /// Both rings are sound.
    pub closed spec fn rings_wf(&self) -> bool {
        self.end0.ring_wf() && self.end1.ring_wf()
    }

    /// The channel's invariant.
    pub open spec fn wf(&self) -> bool {
        self.rings_wf() && self@.wf()
    }

    fn new() -> (c: Channel)
        ensures
            c.wf(),
            c@ == ChannelView::fresh(),
    {
        let c = Channel {
            end0: Endpoint::new(),
            end1: Endpoint::new(),
            object0: None,
            object1: None,
        };
        assert(c@ =~= ChannelView::fresh());
        c
    }

    /// The endpoint on `side`.
    pub fn endpoint(&self, side: usize) -> (e: &Endpoint)
        requires
            self.wf(),
            side < 2,
        ensures
            e.wf(),
            e@ == self@.ends[side as int],
    {
        if side == 0 {
            &self.end0
        } else {
            &self.end1
        }
    }

    /// The endpoint on `side`, to change.
    pub fn endpoint_mut(&mut self, side: usize) -> (e: &mut Endpoint)
        requires
            old(self).wf(),
            side < 2,
        ensures
            (*e).wf(),
            (*e)@ == old(self)@.ends[side as int],
            final(self)@ == old(self)@.with_end(side as int, (*final(e))@),
            (*final(e)).wf() ==> final(self).wf(),
    {
        if side == 0 {
            &mut self.end0
        } else {
            &mut self.end1
        }
    }

    /// Binds `side` to the object it is known by.
    pub fn set_object(&mut self, side: usize, id: ObjectId)
        requires
            old(self).wf(),
            side < 2,
        ensures
            final(self).wf(),
            final(self)@ == (ChannelView {
                objects: old(self)@.objects.update(side as int, Some(id)),
                ..old(self)@
            }),
    {
        if side == 0 {
            self.object0 = Some(id);
        } else {
            self.object1 = Some(id);
        }
        assert(self@ =~= ChannelView {
            objects: old(self)@.objects.update(side as int, Some(id)),
            ..old(self)@
        });
    }

    /// The object `side` is known by, if bound.
    pub fn object(&self, side: usize) -> (r: Option<ObjectId>)
        requires
            side < 2,
        ensures
            r == self@.objects[side as int],
    {
        if side == 0 {
            self.object0
        } else {
            self.object1
        }
    }

    /// The other side.
    pub fn peer(side: usize) -> (r: usize)
        requires
            side < 2,
        ensures
            r == 1 - side,
    {
        1 - side
    }

    /// Closes `side`: the other end learns that its peer is gone. What is
    /// queued there stays to be drained.
    pub fn close_side(&mut self, side: usize)
        requires
            old(self).wf(),
            side < 2,
        ensures
            final(self).wf(),
            final(self)@ == old(self)@.with_end(
                1 - side,
                EndpointView { peer_closed: true, ..old(self)@.ends[1 - side] },
            ),
    {
        if side == 0 {
            self.end1.mark_peer_closed();
        } else {
            self.end0.mark_peer_closed();
        }
        assert(self@ =~= old(self)@.with_end(
            1 - side,
            EndpointView { peer_closed: true, ..old(self)@.ends[1 - side] },
        ));
    }
}

/// One end of one channel.
#[derive(Clone, Copy, PartialEq, Eq, Debug, Structural)]
pub struct EndpointId {
    pub channel: usize,
    pub side: usize,
}

impl EndpointId {
    /// The other end of the same channel.
    pub open spec fn peer(self) -> EndpointId {
        EndpointId { channel: self.channel, side: (1 - self.side) as usize }
    }
}

/// Every channel in the machine.
pub struct ChannelTable {
    channels: Vec<Option<Channel>>,
}

/// What a [`ChannelTable`] holds.
pub type ChannelsView = Seq<Option<ChannelView>>;

/// The view of an optional channel.
pub open spec fn channel_view(c: Option<Channel>) -> Option<ChannelView> {
    match c {
        Some(c) => Some(c@),
        None => None,
    }
}

/// The table has its capacity and every channel in it is sound.
pub open spec fn channels_wf(t: ChannelsView) -> bool {
    &&& t.len() == MAX_CHANNELS
    &&& forall|i: int| 0 <= i < MAX_CHANNELS ==> ((#[trigger] t[i]) matches Some(c) ==> c.wf())
}

/// The channel at `index`, if there is one.
pub open spec fn channel_at(t: ChannelsView, index: usize) -> Option<ChannelView> {
    if index < MAX_CHANNELS {
        t[index as int]
    } else {
        None
    }
}

/// The endpoint `id` names, if its channel exists.
pub open spec fn endpoint_at(t: ChannelsView, id: EndpointId) -> Option<EndpointView> {
    match channel_at(t, id.channel) {
        Some(c) => Some(c.ends[id.side as int]),
        None => None,
    }
}

/// The object `id` is known by, if its channel exists and the end is bound.
pub open spec fn object_at(t: ChannelsView, id: EndpointId) -> Option<ObjectId> {
    match channel_at(t, id.channel) {
        Some(c) => c.objects[id.side as int],
        None => None,
    }
}

/// The table with the endpoint `id`, whose channel exists, replaced by `e`.
pub open spec fn with_endpoint(t: ChannelsView, id: EndpointId, e: EndpointView) -> ChannelsView {
    t.update(id.channel as int, Some(t[id.channel as int]->0.with_end(id.side as int, e)))
}

/// The predicate of a channel one of whose ends is known by `object`.
pub open spec fn bound_to(object: ObjectId) -> spec_fn(Option<ChannelView>) -> bool {
    |o: Option<ChannelView>|
        o matches Some(c) && (c.objects[0] == Some(object) || c.objects[1] == Some(object))
}

/// The endpoint known by `object`: the first channel that has one, and its
/// lower side when both match.
pub open spec fn endpoint_known_by(t: ChannelsView, object: ObjectId) -> Option<EndpointId> {
    let at = slots::first(t, bound_to(object));
    if at < t.len() {
        Some(
            EndpointId {
                channel: at as usize,
                side: if t[at]->0.objects[0] == Some(object) {
                    0
                } else {
                    1
                },
            },
        )
    } else {
        None
    }
}

/// Whether `id0` and `id1` cannot both name an end of a new channel.
pub open spec fn ids_taken(t: ChannelsView, id0: ObjectId, id1: ObjectId) -> bool {
    id0 == id1 || endpoint_known_by(t, id0) is Some || endpoint_known_by(t, id1) is Some
}

/// The first free channel slot, or the capacity.
pub open spec fn channel_vacancy(t: ChannelsView) -> int {
    slots::first(t, slots::free::<ChannelView>())
}

impl View for ChannelTable {
    type V = ChannelsView;

    closed spec fn view(&self) -> ChannelsView {
        Seq::new(self.channels@.len(), |i: int| channel_view(self.channels@[i]))
    }
}

impl ChannelTable {
    /// Every ring in the table is sound.
    pub closed spec fn rings_wf(&self) -> bool {
        forall|i: int|
            0 <= i < self.channels@.len() ==> ((#[trigger] self.channels@[i]) matches Some(c)
                ==> c.rings_wf())
    }

    /// The table's invariant.
    pub open spec fn wf(&self) -> bool {
        self.rings_wf() && channels_wf(self@)
    }

    pub fn new() -> (t: ChannelTable)
        ensures
            t.wf(),
            t@ == slots::empty::<ChannelView>(MAX_CHANNELS as nat),
    {
        let t = ChannelTable { channels: slots::empty_slots(MAX_CHANNELS) };
        assert(t@ =~= slots::empty::<ChannelView>(MAX_CHANNELS as nat));
        t
    }

    /// Creates a channel in the first free slot, returning its two ends.
    pub fn create(&mut self) -> (r: Result<(EndpointId, EndpointId), KError>)
        requires
            old(self).wf(),
        ensures
            final(self).wf(),
            match r {
                Ok((a, b)) => {
                    let at = channel_vacancy(old(self)@);
                    &&& at < MAX_CHANNELS
                    &&& a == (EndpointId { channel: at as usize, side: 0 })
                    &&& b == a.peer()
                    &&& final(self)@ == old(self)@.update(at, Some(ChannelView::fresh()))
                },
                Err(e) => {
                    &&& e == KError::OutOfMemory
                    &&& channel_vacancy(old(self)@) == MAX_CHANNELS
                    &&& final(self)@ == old(self)@
                },
            },
    {
        let mut index: usize = 0;
        while index < MAX_CHANNELS
            invariant
                self.wf(),
                *self == *old(self),
                index <= MAX_CHANNELS,
                forall|j: int| 0 <= j < index ==> !slots::free::<ChannelView>()(#[trigger] self@[j]),
            decreases MAX_CHANNELS - index,
        {
            assert(self@[index as int] == channel_view(self.channels@[index as int]));
            if self.channels[index].is_none() {
                proof {
                    slots::lemma_first_is(self@, slots::free::<ChannelView>(), index as int);
                }
                self.channels[index] = Some(Channel::new());
                assert(self@ =~= old(self)@.update(index as int, Some(ChannelView::fresh())));
                return Ok(
                    (
                        EndpointId { channel: index, side: 0 },
                        EndpointId { channel: index, side: 1 },
                    ),
                );
            }
            index += 1;
        }
        proof {
            slots::lemma_first_is(self@, slots::free::<ChannelView>(), index as int);
        }
        Err(KError::OutOfMemory)
    }

    /// Creates a channel and binds its ends to `id0` and `id1`, which must be two
    /// fresh ids: one that an end is known by already is refused as
    /// [`KError::AlreadyMapped`].
    pub fn create_with_objects(&mut self, id0: ObjectId, id1: ObjectId) -> (r: Result<
        (EndpointId, EndpointId),
        KError,
    >)
        requires
            old(self).wf(),
        ensures
            final(self).wf(),
            match r {
                Ok((a, b)) => {
                    let at = channel_vacancy(old(self)@);
                    &&& !ids_taken(old(self)@, id0, id1)
                    &&& at < MAX_CHANNELS
                    &&& a == (EndpointId { channel: at as usize, side: 0 })
                    &&& b == a.peer()
                    &&& final(self)@ == old(self)@.update(
                        at,
                        Some(
                            ChannelView {
                                objects: seq![Some(id0), Some(id1)],
                                ..ChannelView::fresh()
                            },
                        ),
                    )
                },
                Err(e) => {
                    &&& final(self)@ == old(self)@
                    &&& if ids_taken(old(self)@, id0, id1) {
                        e == KError::AlreadyMapped
                    } else {
                        e == KError::OutOfMemory && channel_vacancy(old(self)@) == MAX_CHANNELS
                    }
                },
            },
    {
        if id0.0 == id1.0 || self.endpoint_of_object(id0).is_some() || self.endpoint_of_object(
            id1,
        ).is_some() {
            return Err(KError::AlreadyMapped);
        }
        match self.create() {
            Err(e) => Err(e),
            Ok((a, b)) => {
                proof {
                    slots::lemma_first(old(self)@, slots::free::<ChannelView>());
                }
                self.set_endpoint_object(a, id0);
                self.set_endpoint_object(b, id1);
                proof {
                    let made = ChannelView {
                        objects: seq![Some(id0), Some(id1)],
                        ..ChannelView::fresh()
                    };
                    assert(ChannelView::fresh().objects.update(0, Some(id0)).update(1, Some(id1))
                        =~= made.objects);
                    assert(self@ =~= old(self)@.update(a.channel as int, Some(made)));
                }
                Ok((a, b))
            },
        }
    }

    /// The channel at `index`, to change.
    pub fn channel_mut(&mut self, index: usize) -> (r: Option<&mut Channel>)
        requires
            old(self).wf(),
        ensures
            match r {
                Some(c) => {
                    &&& index < MAX_CHANNELS
                    &&& (*c).wf()
                    &&& old(self)@[index as int] == Some((*c)@)
                    &&& final(self)@ == old(self)@.update(index as int, Some((*final(c))@))
                    &&& (*final(c)).wf() ==> final(self).wf()
                },
                None => {
                    &&& channel_at(old(self)@, index) is None
                    &&& final(self).wf()
                    &&& final(self)@ == old(self)@
                },
            },
    {
        if index >= self.channels.len() {
            return None;
        }
        assert(self@[index as int] == channel_view(self.channels@[index as int]));
        if self.channels[index].is_none() {
            return None;
        }
        match &mut self.channels[index] {
            Some(c) => {
                assert(after_borrow(self)@ =~= old(self)@.update(index as int, Some((*final(c))@)));
                Some(c)
            },
            None => None,
        }
    }

    /// The channel at `index`.
    pub fn channel(&self, index: usize) -> (r: Option<&Channel>)
        requires
            self.wf(),
        ensures
            match r {
                Some(c) => c.wf() && channel_at(self@, index) == Some(c@),
                None => channel_at(self@, index) is None,
            },
    {
        if index >= self.channels.len() {
            return None;
        }
        assert(self@[index as int] == channel_view(self.channels@[index as int]));
        self.channels[index].as_ref()
    }

    /// Binds `endpoint` to the object it is known by. An endpoint of no channel
    /// is left alone.
    pub fn set_endpoint_object(&mut self, endpoint: EndpointId, id: ObjectId)
        requires
            old(self).wf(),
            endpoint.side < 2,
        ensures
            final(self).wf(),
            final(self)@ == match channel_at(old(self)@, endpoint.channel) {
                Some(c) => old(self)@.update(
                    endpoint.channel as int,
                    Some(
                        ChannelView {
                            objects: c.objects.update(endpoint.side as int, Some(id)),
                            ..c
                        },
                    ),
                ),
                None => old(self)@,
            },
    {
        if let Some(channel) = self.channel_mut(endpoint.channel) {
            channel.set_object(endpoint.side, id);
        }
    }

    /// The object `endpoint` is known by.
    pub fn endpoint_object(&self, endpoint: EndpointId) -> (r: Option<ObjectId>)
        requires
            self.wf(),
            endpoint.side < 2,
        ensures
            r == object_at(self@, endpoint),
    {
        match self.channel(endpoint.channel) {
            Some(c) => c.object(endpoint.side),
            None => None,
        }
    }

    /// The endpoint known by `id`.
    pub fn endpoint_of_object(&self, id: ObjectId) -> (r: Option<EndpointId>)
        requires
            self.wf(),
        ensures
            r == endpoint_known_by(self@, id),
    {
        let mut channel: usize = 0;
        while channel < MAX_CHANNELS
            invariant
                self.wf(),
                channel <= MAX_CHANNELS,
                forall|j: int| 0 <= j < channel ==> !bound_to(id)(#[trigger] self@[j]),
            decreases MAX_CHANNELS - channel,
        {
            assert(self@[channel as int] == channel_view(self.channels@[channel as int]));
            if let Some(c) = &self.channels[channel] {
                let mut side: usize = 2;
                if let Some(o) = c.object(1) {
                    if o == id {
                        side = 1;
                    }
                }
                if let Some(o) = c.object(0) {
                    if o == id {
                        side = 0;
                    }
                }
                if side < 2 {
                    proof {
                        slots::lemma_first_is(self@, bound_to(id), channel as int);
                    }
                    return Some(EndpointId { channel, side });
                }
            }
            channel += 1;
        }
        proof {
            slots::lemma_first_is(self@, bound_to(id), channel as int);
        }
        None
    }
}

impl Default for ChannelTable {
    fn default() -> (t: ChannelTable)
        ensures
            t.wf(),
            t@ == slots::empty::<ChannelView>(MAX_CHANNELS as nat),
    {
        ChannelTable::new()
    }
}

/// Queues are first in, first out: a message enqueued on an empty endpoint is
/// the one dequeued, and on a longer one it waits behind what was there.
pub proof fn law_queue_is_fifo(e: EndpointView, m: MessageView)
    requires
        e.wf(),
        !e.full(),
    ensures
        e.queue.len() == 0 ==> e.enqueued(m).queue[0] == m && e.enqueued(m).dequeued() == e,
        e.queue.len() > 0 ==> e.enqueued(m).queue[0] == e.queue[0] && e.enqueued(m).dequeued()
            == e.dequeued().enqueued(m),
{
    if e.queue.len() == 0 {
        assert(e.enqueued(m).dequeued() =~= e);
    } else {
        assert(e.enqueued(m).dequeued() =~= e.dequeued().enqueued(m));
    }
}

/// Stamping a message changes the one field of its header that is stamped. The
/// payload, the handles it carries and the rest of the header are the sender's.
pub proof fn law_a_stamp_leaves_the_message_alone(m: MessageView, txn_id: u64, correlation: u64)
    ensures
        m.with_txn(txn_id).inline == m.inline,
        m.with_txn(txn_id).handles == m.handles,
        m.with_txn(txn_id).header.txn_id == txn_id,
        m.with_txn(txn_id).header.correlation == m.header.correlation,
        m.with_txn(txn_id).header.interface_id == m.header.interface_id,
        m.with_txn(txn_id).header.method_id == m.header.method_id,
        m.with_txn(txn_id).header.flags == m.header.flags,
        m.with_correlation(correlation).inline == m.inline,
        m.with_correlation(correlation).handles == m.handles,
        m.with_correlation(correlation).header.correlation == correlation,
        m.with_correlation(correlation).header.txn_id == m.header.txn_id,
        m.with_correlation(correlation).header.interface_id == m.header.interface_id,
        m.with_correlation(correlation).header.method_id == m.header.method_id,
        m.with_correlation(correlation).header.flags == m.header.flags,
{
}

/// The wire form says what the header says, in an envelope that gives its own
/// size and version.
pub proof fn law_the_wire_form_says_what_the_header_says(h: MessageHeader, epoch: u64)
    ensures
        wire_form(h, epoch).size == WireMessageHeader::WIRE_SIZE,
        wire_form(h, epoch).version == MESSAGE_HEADER_WIRE_VERSION,
        wire_form(h, epoch).flags == h.flags,
        wire_form(h, epoch).interface_id == h.interface_id,
        wire_form(h, epoch).method_id == h.method_id,
        wire_form(h, epoch).txn_id == h.txn_id,
        wire_form(h, epoch).correlation_lo == h.correlation,
        wire_form(h, epoch).correlation_hi == epoch,
{
}

/// What is done to an endpoint is done to one part of it. A message goes to the
/// back of the queue and leaves from the front; a call that is given up on is
/// remembered as owed an answer that nobody wants.
pub proof fn law_an_endpoint_changes_in_one_part(
    e: EndpointView,
    m: MessageView,
    thread: Option<ThreadId>,
    caller: Option<(ThreadId, u64)>,
)
    ensures
        e.enqueued(m).queue.len() == e.queue.len() + 1,
        e.enqueued(m).queue.last() == m,
        forall|k: int| 0 <= k < e.queue.len() ==> #[trigger] e.enqueued(m).queue[k] == e.queue[k],
        e.enqueued(m).peer_closed == e.peer_closed,
        e.enqueued(m).blocked_receiver == e.blocked_receiver,
        e.enqueued(m).pending_caller == e.pending_caller,
        e.enqueued(m).abandoned == e.abandoned,
        e.queue.len() > 0 ==> {
            &&& e.dequeued().queue.len() == e.queue.len() - 1
            &&& forall|k: int|
                0 <= k < e.queue.len() - 1 ==> #[trigger] e.dequeued().queue[k] == e.queue[k + 1]
        },
        e.dequeued().peer_closed == e.peer_closed,
        e.dequeued().blocked_receiver == e.blocked_receiver,
        e.dequeued().pending_caller == e.pending_caller,
        e.dequeued().abandoned == e.abandoned,
        e.with_receiver(thread).blocked_receiver == thread,
        e.with_receiver(thread).queue == e.queue,
        e.with_receiver(thread).pending_caller == e.pending_caller,
        e.with_receiver(thread).peer_closed == e.peer_closed,
        e.with_receiver(thread).abandoned == e.abandoned,
        e.with_caller(caller).pending_caller == caller,
        e.with_caller(caller).queue == e.queue,
        e.with_caller(caller).blocked_receiver == e.blocked_receiver,
        e.with_caller(caller).peer_closed == e.peer_closed,
        e.with_caller(caller).abandoned == e.abandoned,
        e.aborted().queue == e.queue,
        e.aborted().pending_caller is None,
        e.aborted().blocked_receiver == e.blocked_receiver,
        e.aborted().peer_closed == e.peer_closed,
        e.pending_caller is Some ==> e.aborted().abandoned,
        e.pending_caller is None ==> e.aborted().abandoned == e.abandoned,
        e.full() <==> e.queue.len() == QUEUE_CAP,
{
}

/// The answer to a transaction is the first message stamped with it, and there
/// is none exactly when no message is.
pub proof fn law_the_answer_is_the_first_so_stamped(e: EndpointView, txn: u64)
    ensures
        0 <= e.reply_at(txn) <= e.queue.len(),
        e.reply_at(txn) < e.queue.len() ==> e.queue[e.reply_at(txn)].header.txn_id == txn,
        forall|k: int| 0 <= k < e.reply_at(txn) ==> (#[trigger] e.queue[k]).header.txn_id != txn,
{
    slots::lemma_first(e.queue, answers(txn));
    assert forall|k: int| 0 <= k < e.reply_at(txn) implies (
    #[trigger] e.queue[k]).header.txn_id != txn by {
        assert(!answers(txn)(e.queue[k]));
    }
}

/// An endpoint is one side of one channel; its peer is the other side of the
/// same one, and replacing an endpoint leaves its peer, its object and every
/// other channel alone.
pub proof fn law_an_endpoint_is_a_side_of_its_channel(
    t: ChannelsView,
    id: EndpointId,
    e: EndpointView,
    other: int,
)
    requires
        channels_wf(t),
        id.side < 2,
        id.channel < MAX_CHANNELS,
        t[id.channel as int] is Some,
        0 <= other < MAX_CHANNELS,
        other != id.channel,
    ensures
        id.peer().channel == id.channel,
        id.peer().side < 2,
        id.peer().side != id.side,
        id.peer().peer() == id,
        endpoint_at(t, id) == Some(t[id.channel as int]->0.ends[id.side as int]),
        object_at(t, id) == t[id.channel as int]->0.objects[id.side as int],
        endpoint_at(with_endpoint(t, id, e), id) == Some(e),
        endpoint_at(with_endpoint(t, id, e), id.peer()) == endpoint_at(t, id.peer()),
        object_at(with_endpoint(t, id, e), id) == object_at(t, id),
        object_at(with_endpoint(t, id, e), id.peer()) == object_at(t, id.peer()),
        with_endpoint(t, id, e)[other] == t[other],
        with_endpoint(t, id, e).len() == t.len(),
{
}

/// A channel that does not exist has no endpoints.
pub proof fn law_no_channel_no_endpoint(t: ChannelsView, id: EndpointId)
    requires
        channels_wf(t),
        id.channel >= MAX_CHANNELS || t[id.channel as int] is None,
    ensures
        endpoint_at(t, id) is None,
        object_at(t, id) is None,
{
}

/// A new channel is open at both ends, empty and unbound.
pub proof fn law_a_new_channel_is_open_and_empty(side: int)
    requires
        0 <= side < 2,
    ensures
        ({
            let c = ChannelView::fresh();
            &&& c.wf()
            &&& c.ends[side].queue.len() == 0
            &&& !c.ends[side].peer_closed
            &&& !c.ends[side].abandoned
            &&& c.ends[side].blocked_receiver is None
            &&& c.ends[side].pending_caller is None
            &&& c.objects[side] is None
        }),
{
}

/// An endpoint found by an object is bound to that object, and none is found
/// only when no endpoint is.
pub proof fn law_an_endpoint_is_found_by_its_object(t: ChannelsView, object: ObjectId)
    requires
        channels_wf(t),
    ensures
        match endpoint_known_by(t, object) {
            Some(id) => {
                &&& id.channel < MAX_CHANNELS
                &&& id.side < 2
                &&& t[id.channel as int] matches Some(c)
                &&& c.objects[id.side as int] == Some(object)
            },
            None => forall|k: int|
                0 <= k < MAX_CHANNELS ==> (#[trigger] t[k] matches Some(c) ==> c.objects[0] != Some(
                    object,
                ) && c.objects[1] != Some(object)),
        },
{
    slots::lemma_first(t, bound_to(object));
    if endpoint_known_by(t, object) is None {
        assert forall|k: int| 0 <= k < MAX_CHANNELS implies (#[trigger] t[k] matches Some(c)
            ==> c.objects[0] != Some(object) && c.objects[1] != Some(object)) by {
            assert(!bound_to(object)(t[k]));
        }
    }
}

} // verus!
