//! Suspending the machine, and what wakes it.
use kcore::exec::power::{SuspendOutcome, SuspendStep};
use kcore::exec::Executive;
use kcore::object::ObjectId;
use kcore::occupancy::{at_site, Site};
use kcore::rights::Rights;
use kcore::thread::{Thread, ThreadId, ThreadState};

fn thread(id: u64) -> Thread {
    Thread {
        id: ThreadId(id),
        state: ThreadState::Blocked,
        priority: 1,
        correlation: 0,
        process: None,
        recv_deadline: None,
        kernel_stack_base: 0,
        kernel_stack_top: 0,
        space_root: None,
    }
}

fn machine() -> (Executive, usize) {
    let mut exec = Executive::new(4, 0);
    exec.device_register_mmio(ObjectId(50), 0, 1, Rights::none()).unwrap();
    exec.device_set_mmio_irq(ObjectId(50), 33).unwrap();
    let t = exec.add_thread(0, thread(1), 0).unwrap();
    exec.run(0, 0);
    (exec, t)
}

#[test]
fn a_wake_between_the_snapshot_and_the_commit_is_not_lost() {
    let (mut exec, _t) = machine();
    exec.set_wake_source(ObjectId(50), true).unwrap();
    let snapshot = exec.wake_events();
    assert_eq!(exec.record_wake(0, 33).map(|w| w.source), Some(ObjectId(50)));
    assert_eq!(at_site(&exec.occupancy, Site::SystemSuspend), 0);
    match exec.system_suspend(0, snapshot) {
        SuspendStep::Refused(report) => assert_eq!(report.outcome, SuspendOutcome::WakeArrived),
        SuspendStep::Asleep(_) => panic!("the machine slept through a wake"),
    }
}

#[test]
fn an_unarmed_line_does_not_count() {
    let (mut exec, _t) = machine();
    assert_eq!(exec.record_wake(0, 33), None);
    assert_eq!(exec.wake_events(), 0);
    assert!(!exec.is_wake_source(ObjectId(50)));
}

#[test]
fn a_sleeping_machine_is_woken_by_an_armed_device() {
    let (mut exec, t) = machine();
    exec.set_wake_source(ObjectId(50), true).unwrap();
    assert!(matches!(
        exec.system_suspend(0, exec.wake_events()),
        SuspendStep::Asleep(_)
    ));
    assert_eq!(exec.scheduler(0).thread_state(t), Some(ThreadState::Blocked));
    assert_eq!(exec.record_wake(0, 33).map(|w| w.source), Some(ObjectId(50)));
    assert_eq!(exec.scheduler(0).thread_state(t), Some(ThreadState::Ready));
    let report = exec.suspend_report(0);
    assert_eq!(report.outcome, SuspendOutcome::Resumed);
    assert_eq!(report.source, Some(ObjectId(50)));
    assert_eq!(at_site(&exec.occupancy, Site::SystemSuspend), 0);
}

#[test]
fn a_hold_vetoes_the_commit() {
    let (mut exec, _t) = machine();
    exec.acquire_wake_hold(0, ObjectId(9), 0).unwrap();
    assert_eq!(exec.wake_hold_holder(0), Some(ObjectId(9)));
    match exec.system_suspend(0, exec.wake_events()) {
        SuspendStep::Refused(report) => assert_eq!(report.outcome, SuspendOutcome::Vetoed),
        SuspendStep::Asleep(_) => panic!("a hold was ignored"),
    }
    assert!(exec.release_wake_hold(ObjectId(9)));
    assert_eq!(exec.wake_holds_held(0), 0);
    assert!(matches!(
        exec.system_suspend(0, exec.wake_events()),
        SuspendStep::Asleep(_)
    ));
}

#[test]
fn a_wake_says_whether_its_grace_hold_was_taken() {
    let (mut exec, _t) = machine();
    exec.set_wake_source(ObjectId(50), true).unwrap();
    let first = exec.record_wake(0, 33).unwrap();
    assert!(first.held);
    assert_eq!((first.events, first.at), (1, 0));
    for i in 0..7 {
        exec.acquire_wake_hold(0, ObjectId(60 + i), 0).unwrap();
    }
    let last = exec.record_wake(0, 33).unwrap();
    assert!(!last.held, "there is no room for it");
    assert_eq!(last.events, 2, "it counts all the same");
}
