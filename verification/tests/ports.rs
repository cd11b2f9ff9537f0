//! Ports: bindings, coalescing, waiting, and address waits.
use kcore::config::{MAX_BINDINGS, MAX_PORTS};
use kcore::error::KError;
use kcore::exec::ports::Step;
use kcore::exec::Executive;
use kcore::object::ObjectId;
use kcore::occupancy::{at_site, Site};
use kcore::port::{Port, PortId};
use kcore::thread::{Thread, ThreadId, ThreadState};
use kcore::wait::WaitKey;

fn thread(id: u64) -> Thread {
    Thread {
        id: ThreadId(id),
        state: ThreadState::Blocked,
        priority: 1,
        correlation: 0,
        process: None,
        recv_deadline: None,
        kernel_stack_base: 0,
        kernel_stack_top: 0,
        space_root: None,
    }
}

#[test]
fn edges_coalesce_without_being_lost() {
    let mut p = Port::new();
    assert_eq!(p.bind(40, 1), Ok(()));
    assert_eq!(p.bind(40, 1), Err(KError::Protocol));
    assert!(p.deliver(40, 1, 2));
    assert!(p.deliver(40, 1, 3));
    assert!(!p.deliver(41, 1, 1), "nothing is bound to that");
    assert!(p.is_asserted());
    let event = p.drain().unwrap();
    assert_eq!((event.source, event.signal, event.pending), (40, 1, 5));
    assert!(!p.is_asserted());
    assert_eq!(p.drain(), None);
    assert_eq!(p.coalesced(), 1, "one delivery landed on a pending event");
}

#[test]
fn unbinding_takes_what_was_pending() {
    let mut p = Port::new();
    p.bind(1, 1).unwrap();
    p.deliver(1, 1, 1);
    assert!(p.unbind(1, 1));
    assert!(!p.unbind(1, 1));
    assert!(!p.is_asserted());
    for i in 0..MAX_BINDINGS as u64 {
        p.bind(i, 9).unwrap();
    }
    assert_eq!(p.bind(100, 9), Err(KError::OutOfMemory));
}

#[test]
fn a_signal_reaches_every_bound_port_and_wakes_its_drainer() {
    let mut exec = Executive::new(4, 0);
    let one = exec.port_create().unwrap();
    let (two, id) = exec.port_create_with_object().unwrap();
    assert_eq!(exec.port_of_object(id), Some(two));
    exec.port_bind(one, 5, 1).unwrap();
    exec.port_bind(two, 5, 1).unwrap();
    assert_eq!(exec.port_bind(PortId(9), 5, 1), Err(KError::BadHandle));
    let t = exec.add_thread(0, thread(1), 0).unwrap();
    exec.run(0, 0);
    assert!(matches!(exec.port_wait(0, one), Step::Park(_)));
    assert!(exec.port_has_drainer(one));
    assert_eq!(exec.port_signal(0, 5, 1, 1), 2);
    assert!(!exec.port_has_drainer(one));
    assert_eq!(exec.scheduler(0).thread_state(t), Some(ThreadState::Ready));
    assert!(exec.port_asserted(two));
    assert_eq!(exec.port_signal(0, 6, 1, 1), 0);
    assert_eq!(exec.port_signal_one(0, two, 5, 1, 4), Ok(()));
    assert_eq!(exec.port_coalesced(two), 1);
}

#[test]
fn an_object_addresses_one_port() {
    let mut exec = Executive::new(4, 0);
    let (port, id) = exec.port_create_with_object().unwrap();
    let (other, next) = exec.port_create_with_object().unwrap();
    assert_ne!(id, next);
    assert_eq!(exec.port_of_object(id), Some(port));
    assert_eq!(exec.port_of_object(next), Some(other));
    assert_eq!(exec.port_of_object(ObjectId(60)), None);
}

#[test]
fn a_wait_on_a_port_is_inside_until_it_ends() {
    let mut exec = Executive::new(4, 0);
    let port = exec.port_create().unwrap();
    exec.port_bind(port, 5, 1).unwrap();
    exec.add_thread(0, thread(1), 0).unwrap();
    exec.run(0, 0);
    assert!(matches!(exec.port_wait(0, port), Step::Park(_)));
    assert_eq!(at_site(&exec.occupancy, Site::PortWait), 1);
    exec.port_signal(0, 5, 1, 1);
    exec.run(0, 0);
    assert!(matches!(exec.port_wait_resume(0, port), Step::Done(Ok(_))));
    assert_eq!(at_site(&exec.occupancy, Site::PortWait), 0);
    assert!(matches!(exec.port_wait(0, PortId(9)), Step::Done(Err(_))));
    assert_eq!(at_site(&exec.occupancy, Site::PortWait), 0);
}

#[test]
fn ports_run_out() {
    let mut exec = Executive::new(4, 0);
    for _ in 0..MAX_PORTS {
        exec.port_create().unwrap();
    }
    assert_eq!(exec.port_create(), Err(KError::OutOfMemory));
}

#[test]
fn an_address_wait_blocks_only_while_the_word_is_as_expected() {
    let mut exec = Executive::new(4, 0);
    let t = exec.add_thread(0, thread(1), 0).unwrap();
    exec.run(0, 0);
    let key = WaitKey {
        space: 1,
        address: 0x4000,
    };
    assert_eq!(
        exec.wait_on_address(0, key, 7, || Ok(8)).err(),
        Some(KError::WouldBlock)
    );
    assert_eq!(
        exec.wait_on_address(0, key, 7, || Err(KError::InvalidMapping)).err(),
        Some(KError::InvalidMapping)
    );
    assert_eq!(at_site(&exec.occupancy, Site::WaitOnAddress), 0);
    let switch = exec.wait_on_address(0, key, 7, || Ok(7)).unwrap();
    assert_eq!(at_site(&exec.occupancy, Site::WaitOnAddress), 1);
    assert_eq!(switch.from, Some(t));
    let other = WaitKey {
        space: 2,
        address: 0x4000,
    };
    assert_eq!(exec.wake(0, other, 1), 0);
    assert_eq!(exec.wake(0, key, 8), 1);
    assert_eq!(exec.scheduler(0).thread_state(t), Some(ThreadState::Ready));
    assert_eq!(exec.wake(0, key, 8), 0);
    exec.run(0, 0);
    exec.wait_on_address_resume(0);
    assert_eq!(at_site(&exec.occupancy, Site::WaitOnAddress), 0);
}
