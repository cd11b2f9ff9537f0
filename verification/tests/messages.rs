//! Channels: headers, queues, and synchronous calls through the executive.
use kcore::error::KError;
use kcore::exec::messaging::{CallStep, PendingCall};
use kcore::exec::paging::ServiceStep;
use kcore::exec::ports::Step;
use kcore::exec::{Executive, MAX_SYNC_DEPTH};
use kcore::ipc::{
    EndpointId, Message, MessageHeader, TransferredHandle, WireMessageHeader, QUEUE_CAP,
    SIGNAL_MESSAGE,
};
use kcore::object::ObjectId;
use kcore::occupancy::{at_site, current, Site};
use kcore::rights::Rights;
use kcore::thread::{Thread, ThreadId, ThreadState};

fn thread(id: u64) -> Thread {
    Thread {
        id: ThreadId(id),
        state: ThreadState::Blocked,
        priority: 1,
        correlation: 0,
        process: None,
        recv_deadline: None,
        kernel_stack_base: 0,
        kernel_stack_top: 0,
        space_root: None,
    }
}

fn message(bytes: &[u8]) -> Message {
    let mut m = Message::new(MessageHeader::new(7, 1));
    m.set_inline(bytes).unwrap();
    m
}

/// A client and a server thread on CPU 0, the server parked on its end.
fn client_and_server() -> (Executive, EndpointId, EndpointId, usize, usize) {
    let mut exec = Executive::new(4, 0);
    let (client, server) = exec.channel_create().unwrap();
    let s = exec.add_thread(0, thread(1), 501).unwrap();
    let c = exec.add_thread(0, thread(2), 502).unwrap();
    assert_eq!(exec.run(0, 0).unwrap().to, Some(s));
    match exec.receive(0, server) {
        Step::Park(switch) => assert_eq!(switch.to, Some(c)),
        Step::Done(_) => panic!("there is nothing to receive"),
    }
    (exec, client, server, c, s)
}

fn done<T>(step: Step<T>) -> T {
    match step {
        Step::Done(t) => t,
        Step::Park(_) => panic!("parked"),
    }
}

#[test]
fn a_header_survives_the_wire() {
    let mut h = MessageHeader::new(0x1122, 9);
    h.flags = 5;
    h.txn_id = 77;
    h.correlation = 88;
    let wire = h.to_wire(0xe9);
    assert_eq!(wire.size as usize, WireMessageHeader::WIRE_SIZE);
    assert_eq!(wire.version, 2);
    assert_eq!(wire.correlation_hi, 0xe9);
    assert_eq!(MessageHeader::from_wire(&wire), Ok(h));
    let wide = WireMessageHeader {
        flags: 1 << 32,
        ..wire
    };
    assert_eq!(MessageHeader::from_wire(&wide), Err(KError::Protocol));
}

#[test]
fn a_message_has_bounds() {
    let mut m = Message::new(MessageHeader::new(0, 0));
    assert_eq!(m.set_inline(&[0u8; 257]), Err(KError::Protocol));
    assert_eq!(m.set_inline(&[1u8; 256]), Ok(()));
    let h = TransferredHandle {
        object: ObjectId(1),
        rights: Rights::from_bits(Rights::READ),
    };
    for _ in 0..4 {
        assert_eq!(m.add_handle(h), Ok(()));
    }
    assert_eq!(m.add_handle(h), Err(KError::Protocol));
    assert_eq!(m.handle_count(), 4);
}

#[test]
fn messages_arrive_in_the_order_they_were_sent() {
    let mut exec = Executive::new(4, 0);
    let (a, b) = exec.channel_create().unwrap();
    for i in 0..QUEUE_CAP as u8 {
        assert_eq!(exec.send(0, a, message(&[i])), Ok(()));
    }
    assert_eq!(exec.send(0, a, message(&[99])), Err(KError::WouldBlock));
    for i in 0..QUEUE_CAP as u8 {
        assert_eq!(exec.try_receive(0, b).unwrap().inline(), &[i]);
    }
    assert_eq!(exec.try_receive(0, b).err(), Some(KError::WouldBlock));
    let nowhere = EndpointId {
        channel: 40,
        side: 0,
    };
    assert_eq!(exec.send(0, nowhere, message(b"x")), Err(KError::BadHandle));
}

#[test]
fn a_send_wakes_a_parked_receiver_and_carries_the_cause() {
    let (mut exec, client, server, c, s) = client_and_server();
    assert_eq!(exec.endpoint_receiver(server), Some(ThreadId(1)));
    assert_eq!(exec.scheduler(0).current(), Some(c));
    assert_eq!(exec.send(0, client, message(b"hi")), Ok(()));
    assert_eq!(exec.endpoint_receiver(server), None);
    assert_eq!(exec.scheduler(0).thread_state(s), Some(ThreadState::Ready));
    let m = exec.try_receive(0, server).unwrap();
    assert_eq!(m.inline(), b"hi");
    assert_eq!(m.header().correlation, 502);
}

#[test]
fn a_local_round_trip_is_two_switches() {
    let (mut exec, client, server, c, s) = client_and_server();
    let before = exec.switch_count(0);
    assert_eq!(at_site(&exec.occupancy, Site::Receive), 1);
    let pending = match exec.call(0, client, message(b"ask")) {
        CallStep::Parked(p, switch) => {
            assert_eq!((switch.from, switch.to), (Some(c), Some(s)));
            p
        }
        CallStep::Refused(e) => panic!("{e:?}"),
    };
    assert_eq!(exec.switch_count(0), before + 1);
    // The server runs at the caller's cause.
    assert_eq!(exec.scheduler(0).thread_correlation(s), Some(502));
    let request = done(exec.receive_resume(0, server)).unwrap();
    assert_eq!(request.inline(), b"ask");
    assert_eq!(request.header().txn_id, pending.txn);
    let back = exec.reply(0, server, message(b"answer")).unwrap().unwrap();
    assert_eq!((back.from, back.to), (Some(s), Some(c)));
    assert_eq!(exec.switch_count(0), before + 2);
    let reply = exec.call_resume(0, pending).unwrap();
    assert_eq!(reply.inline(), b"answer");
    assert_eq!(reply.header().txn_id, pending.txn);
    assert_eq!(exec.scheduler(0).thread_correlation(s), Some(501));
    assert_eq!(at_site(&exec.occupancy, Site::Reply), 1, "the server is still in its reply");
    exec.scheduler_at(0).handoff_to(s);
    exec.reply_resume(0);
    assert_eq!(current(&exec.occupancy), 0, "every entry was paired");
}

#[test]
fn a_callee_is_lent_a_priority_for_the_calls_duration() {
    let mut exec = Executive::new(4, 0);
    let (client, server) = exec.channel_create().unwrap();
    let s = exec.add_thread(0, thread(1), 501).unwrap();
    let high = Thread {
        priority: 9,
        ..thread(2)
    };
    exec.add_thread(0, high, 502).unwrap();
    exec.run(0, 0);
    assert!(matches!(exec.receive(0, server), Step::Park(_)));
    let pending = match exec.call(0, client, message(b"ask")) {
        CallStep::Parked(p, _) => p,
        CallStep::Refused(e) => panic!("{e:?}"),
    };
    assert_eq!(exec.scheduler(0).thread_priority(s), Some(9));
    exec.reply(0, server, message(b"answer")).unwrap();
    exec.call_resume(0, pending).unwrap();
    assert_eq!(exec.scheduler(0).thread_priority(s), Some(1));
}

#[test]
fn a_later_calls_loan_outlives_an_earlier_call() {
    let mut exec = Executive::new(4, 0);
    let (client, server) = exec.channel_create().unwrap();
    let (other_client, other_server) = exec.channel_create().unwrap();
    let s = exec.add_thread(0, thread(1), 501).unwrap();
    let ranked = |id, priority| Thread {
        priority,
        ..thread(id)
    };
    exec.add_thread(0, ranked(2, 9), 502).unwrap();
    exec.add_thread(0, ranked(3, 7), 503).unwrap();
    exec.run(0, 0);
    assert!(matches!(exec.receive(0, server), Step::Park(_)));
    let first = match exec.call(0, client, message(b"one")) {
        CallStep::Parked(p, _) => p,
        CallStep::Refused(e) => panic!("{e:?}"),
    };
    assert_eq!(exec.scheduler(0).thread_priority(s), Some(9));
    done(exec.receive_resume(0, server)).unwrap();
    exec.reply_and_continue(0, server, message(b"answer")).unwrap();
    // Before the first caller runs again, the server serves a second one.
    assert!(matches!(exec.receive(0, other_server), Step::Park(_)));
    let second = match exec.call(0, other_client, message(b"two")) {
        CallStep::Parked(p, _) => p,
        CallStep::Refused(e) => panic!("{e:?}"),
    };
    assert_eq!(exec.scheduler(0).thread_priority(s), Some(7));
    exec.call_resume(0, first).unwrap();
    assert_eq!(exec.scheduler(0).thread_priority(s), Some(7));
    assert_eq!(exec.scheduler(0).thread_correlation(s), Some(503));
    exec.reply_and_continue(0, other_server, message(b"answer")).unwrap();
    exec.call_resume(0, second).unwrap();
    assert_eq!(exec.scheduler(0).thread_priority(s), Some(1));
    assert_eq!(exec.scheduler(0).thread_correlation(s), Some(501));
}

#[test]
fn a_call_that_timed_out_gives_its_callee_back_what_it_was_lent() {
    let (mut exec, client, server, c, s) = client_and_server();
    let object = exec.memory_create_paged(ObjectId(3), 1, ObjectId(77)).unwrap();
    let pending = match exec.call_service(0, server, message(b"page"), object, 0) {
        ServiceStep::Parked(p, _) => p,
        ServiceStep::Refused(e) => panic!("{e:?}"),
    };
    assert_eq!(exec.scheduler(0).thread_correlation(s), Some(502));
    assert_eq!(exec.expire_stalled_page_ins(0).len(), 1);
    exec.scheduler_at(0).handoff_to(c);
    assert_eq!(
        exec.call_service_resume(0, pending).err(),
        Some(KError::TimedOut)
    );
    assert_eq!(exec.scheduler(0).thread_correlation(s), Some(501));
    assert_eq!(at_site(&exec.occupancy, Site::Call), 0);
    let _ = client;
}

#[test]
fn closing_wakes_both_a_receiver_and_a_caller() {
    let mut exec = Executive::new(4, 0);
    let (a, b) = exec.channel_create().unwrap();
    let caller = exec.add_thread(0, thread(1), 0).unwrap();
    let receiver = exec.add_thread(0, thread(2), 0).unwrap();
    exec.run(0, 0);
    assert!(matches!(
        exec.call(0, a, message(b"ask")),
        CallStep::Parked(_, _)
    ));
    assert!(matches!(exec.receive(0, a), Step::Park(_)));
    assert_eq!(exec.close_endpoint(0, b), Ok(()));
    assert_eq!(exec.scheduler(0).thread_state(receiver), Some(ThreadState::Ready));
    assert_eq!(exec.scheduler(0).thread_state(caller), Some(ThreadState::Ready));
}

#[test]
fn a_caller_answered_on_a_closed_channel_still_runs() {
    let (mut exec, client, server, c, s) = client_and_server();
    let pending = match exec.call(0, client, message(b"ask")) {
        CallStep::Parked(p, _) => p,
        CallStep::Refused(e) => panic!("{e:?}"),
    };
    assert_eq!(exec.scheduler(0).current(), Some(s));
    done(exec.receive_resume(0, server)).unwrap();
    exec.close_endpoint(0, client).unwrap();
    assert_eq!(
        done(exec.reply_receive(0, server, message(b"answer"))).err(),
        Some(KError::PeerClosed)
    );
    assert_eq!(exec.scheduler(0).thread_state(c), Some(ThreadState::Ready));
    assert_eq!(at_site(&exec.occupancy, Site::ReplyReceive), 0);
    assert_eq!(exec.call_resume(0, pending).unwrap().inline(), b"answer");
}

#[test]
fn every_late_receiver_is_woken() {
    let mut exec = Executive::new(4, 0);
    let mut slots = Vec::new();
    for i in 0..12u64 {
        slots.push(exec.add_thread(0, thread(1 + i), 0).unwrap());
    }
    let (_a, b) = exec.channel_create().unwrap();
    let ends = vec![b];
    exec.run(0, 0);
    for _ in 0..12 {
        assert!(matches!(
            exec.receive_any(0, &ends, Some(5), 0),
            Step::Park(_)
        ));
    }
    assert_eq!(at_site(&exec.occupancy, Site::ReceiveAny), 12);
    assert_eq!(exec.expire_timed_out_receivers(0, 5), 12);
    for slot in slots {
        assert_eq!(exec.scheduler(0).thread_state(slot), Some(ThreadState::Ready));
    }
}

#[test]
fn an_object_names_one_end() {
    let mut exec = Executive::new(4, 0);
    let (a, b) = exec.channel_create_with_objects().unwrap();
    assert_ne!(a.object, b.object);
    assert_eq!(exec.endpoint_of_object(a.object), Some(a.endpoint));
    assert_eq!(exec.endpoint_of_object(b.object), Some(b.endpoint));
    // An id that is bound by hand is not minted.
    let (other, _) = exec.channel_create().unwrap();
    let taken = ObjectId(b.object.0 + 1);
    exec.bind_endpoint_object(other, taken);
    let (c, d) = exec.channel_create_with_objects().unwrap();
    assert_eq!((c.object.0, d.object.0), (taken.0 + 1, taken.0 + 2));
    assert_eq!(exec.endpoint_of_object(taken), Some(other));
    let (_, id) = exec.port_create_with_object().unwrap();
    assert_eq!(id.0, taken.0 + 3, "ports and channels share the ids");
}

#[test]
fn a_second_unanswered_call_from_the_same_end_is_refused() {
    let (mut exec, client, _server, _c, s) = client_and_server();
    assert!(matches!(
        exec.call(0, client, message(b"one")),
        CallStep::Parked(_, _)
    ));
    assert_eq!(exec.scheduler(0).current(), Some(s));
    assert!(matches!(
        exec.call(0, client, message(b"two")),
        CallStep::Refused(KError::Protocol)
    ));
}

#[test]
fn a_reply_nobody_asked_for_is_not_taken_for_an_answer() {
    let (mut exec, client, server, _c, _s) = client_and_server();
    // A one-way message from the server's side is already queued.
    assert_eq!(exec.send(0, server, message(b"news")), Ok(()));
    let pending = match exec.call(0, client, message(b"ask")) {
        CallStep::Parked(p, _) => p,
        CallStep::Refused(e) => panic!("{e:?}"),
    };
    exec.reply_and_continue(0, server, message(b"answer")).unwrap();
    let reply = exec.call_resume(0, pending).unwrap();
    assert_eq!(reply.inline(), b"answer");
    assert_eq!(exec.try_receive(0, client).unwrap().inline(), b"news");
}

#[test]
fn a_caller_woken_without_an_answer_learns_why() {
    let (mut exec, client, server, _c, _s) = client_and_server();
    let pending = match exec.call(0, client, message(b"ask")) {
        CallStep::Parked(p, _) => p,
        CallStep::Refused(e) => panic!("{e:?}"),
    };
    assert_eq!(exec.close_endpoint(0, server), Ok(()));
    assert_eq!(exec.call_resume(0, pending).err(), Some(KError::PeerClosed));
}

#[test]
fn call_chains_are_bounded() {
    let mut exec = Executive::new(4, 0);
    let t = exec.add_thread(0, thread(1), 0).unwrap();
    exec.run(0, 0);
    assert_eq!(exec.scheduler(0).current(), Some(t));
    for _ in 0..MAX_SYNC_DEPTH {
        let (client, _) = exec.channel_create().unwrap();
        assert!(matches!(
            exec.call(0, client, message(b"deeper")),
            CallStep::Parked(PendingCall { callee: None, .. }, _)
        ));
        // Nobody answers: the thread is made runnable and runs again.
        exec.scheduler_at(0).unblock(t);
        exec.run(0, 0);
    }
    let (client, _) = exec.channel_create().unwrap();
    assert!(matches!(
        exec.call(0, client, message(b"too deep")),
        CallStep::Refused(KError::Protocol)
    ));
}

#[test]
fn receive_any_takes_the_first_end_with_a_message_and_honours_its_deadline() {
    let mut exec = Executive::new(4, 0);
    let (a0, a1) = exec.channel_create().unwrap();
    let (b0, b1) = exec.channel_create().unwrap();
    exec.add_thread(0, thread(1), 0).unwrap();
    exec.run(0, 0);
    let ends = vec![a1, b1];
    exec.send(0, b0, message(b"b")).unwrap();
    let (index, m) = done(exec.receive_any(0, &ends, None, 0)).unwrap();
    assert_eq!((index, m.inline()), (1, &b"b"[..]));
    assert_eq!(
        done(exec.receive_any(0, &ends, Some(5), 5)).err(),
        Some(KError::TimedOut)
    );
    assert!(matches!(
        exec.receive_any(0, &ends, Some(9), 5),
        Step::Park(_)
    ));
    assert_eq!(exec.endpoint_receiver(a1), Some(ThreadId(1)));
    assert_eq!(exec.endpoint_receiver(b1), Some(ThreadId(1)));
    assert_eq!(exec.expire_timed_out_receivers(0, 8), 0);
    assert_eq!(exec.expire_timed_out_receivers(0, 9), 1);
    exec.run(0, 9);
    assert_eq!(
        done(exec.receive_any_resume(0, &ends, Some(9), 9)).err(),
        Some(KError::TimedOut)
    );
    assert_eq!(exec.endpoint_receiver(a1), None);
    let _ = a0;
}

#[test]
fn an_arrival_is_signalled_to_a_bound_port() {
    let mut exec = Executive::new(4, 0);
    let (a, b) = exec.channel_create_with_objects().unwrap();
    let source = u64::from(b.object.0);
    let port = exec.port_create().unwrap();
    exec.port_bind(port, source, SIGNAL_MESSAGE).unwrap();
    exec.send(0, a.endpoint, message(b"x")).unwrap();
    assert!(exec.port_asserted(port));
    let event = done(exec.port_wait(0, port)).unwrap();
    assert_eq!((event.source, event.signal, event.pending), (source, SIGNAL_MESSAGE, 1));
}

#[test]
fn a_dying_process_closes_only_where_a_reply_is_owed() {
    let mut exec = Executive::new(4, 0);
    let (a, b) = exec.channel_create_with_objects().unwrap();
    let c = exec.add_thread(0, thread(1), 0).unwrap();
    exec.run(0, 0);
    // Nobody awaits a reply: the channel stays open.
    assert_eq!(exec.close_endpoints_of(0, &vec![b.object]), 0);
    assert!(matches!(
        exec.call(0, a.endpoint, message(b"ask")),
        CallStep::Parked(_, _)
    ));
    assert_eq!(exec.close_endpoints_of(0, &vec![ObjectId(5), b.object]), 1);
    assert_eq!(exec.scheduler(0).thread_state(c), Some(ThreadState::Ready));
}

#[test]
fn a_wakeup_for_another_cpu_is_posted_there() {
    let mut exec = Executive::new(4, 0);
    let (a, b) = exec.channel_create().unwrap();
    // Threads of CPU 1 are numbered from 1 << 56 on.
    let far = (1u64 << 56) | 1;
    let slot = exec.add_thread(1, thread(far), 0).unwrap();
    exec.run(1, 0);
    assert!(matches!(exec.receive(1, b), Step::Park(_)));
    assert_eq!(exec.send(0, a, message(b"over there")), Ok(()));
    assert_eq!(exec.scheduler(1).thread_state(slot), Some(ThreadState::Blocked));
    exec.drain_wakeups(1);
    assert_eq!(exec.scheduler(1).thread_state(slot), Some(ThreadState::Ready));
}
