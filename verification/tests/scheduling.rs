//! The scheduler: who runs next, who never runs again, and what a switch says.
use kcore::config::MAX_THREADS;
use kcore::error::KError;
use kcore::object::ObjectId;
use kcore::sched::{RunQueue, Scheduler};
use kcore::thread::{Thread, ThreadId, ThreadState};

fn thread(id: u64) -> Thread {
    Thread {
        id: ThreadId(id),
        state: ThreadState::Blocked,
        priority: 3,
        correlation: 0,
        process: Some(ObjectId(9)),
        recv_deadline: None,
        kernel_stack_base: 0x1000 * id,
        kernel_stack_top: 0x1000 * id + 0x800,
        space_root: Some(0x70_0000 + id),
    }
}

#[test]
fn the_run_queue_is_first_in_first_out() {
    let mut q = RunQueue::new();
    assert!(q.is_empty());
    assert!(q.push(4));
    assert!(q.push(2));
    assert!(q.push(7));
    assert_eq!(q.len(), 3);
    assert!(q.remove(2));
    assert!(!q.remove(2));
    assert_eq!(q.pop(), Some(4));
    assert_eq!(q.pop(), Some(7));
    assert_eq!(q.pop(), None);
    for i in 0..MAX_THREADS {
        assert!(q.push(i));
    }
    assert!(!q.push(0), "the queue is full");
}

#[test]
fn threads_run_in_turn_and_a_switch_says_what_to_publish() {
    let mut s = Scheduler::new(2, 0);
    let a = s.add_thread(thread(1), 11).unwrap();
    let b = s.add_thread(thread(2), 12).unwrap();
    assert_eq!((a, b), (0, 1));
    assert_eq!(s.thread_state(a), Some(ThreadState::Ready));
    let first = s.run().unwrap();
    assert_eq!(first.from, None);
    assert_eq!(first.to, Some(a));
    assert_eq!(first.trace.thread_id, 1);
    assert_eq!(first.trace.process_id, 9);
    assert_eq!(first.trace.correlation, 11);
    assert_eq!(first.resume.unwrap().kernel_stack_top, 0x1800);
    assert_eq!(s.current(), Some(a));
    let next = s.block_current();
    assert_eq!((next.from, next.to), (Some(a), Some(b)));
    assert_eq!(s.thread_state(a), Some(ThreadState::Blocked));
    // Nothing is ready: the boot context runs.
    let idle = s.block_current();
    assert_eq!(idle.to, None);
    assert_eq!(idle.trace.thread_id, 0);
    assert_eq!(s.switch_count(), 3);
    assert_eq!(s.run(), None);
}

#[test]
fn a_tick_rotates_when_the_quantum_is_spent() {
    let mut s = Scheduler::new(2, 0);
    let a = s.add_thread(thread(1), 0).unwrap();
    let b = s.add_thread(thread(2), 0).unwrap();
    s.run();
    assert_eq!(s.on_tick(), None, "the quantum has one tick left");
    let switch = s.on_tick().unwrap();
    assert_eq!((switch.from, switch.to), (Some(a), Some(b)));
    assert_eq!(s.thread_state(a), Some(ThreadState::Ready));
    assert_eq!(s.ticks(), 2);
}

#[test]
fn an_exited_thread_is_never_dispatched() {
    let mut s = Scheduler::new(1, 0);
    let a = s.add_thread(thread(1), 0).unwrap();
    let b = s.add_thread(thread(2), 0).unwrap();
    s.terminate(b);
    s.run();
    assert_eq!(s.current(), Some(a));
    assert_eq!(s.index_of(ThreadId(2)), None, "it no longer answers to its name");
    assert_eq!(s.lookup(ThreadId(2)), Some(b), "its place is still to be reaped");
    assert!(!s.unblock_thread(b, ThreadId(2)));
    assert_eq!(s.block_current().to, None);
}

#[test]
fn a_terminated_thread_never_runs_again() {
    let mut s = Scheduler::new(1, 0);
    let a = s.add_thread(thread(1), 0).unwrap();
    let b = s.add_thread(thread(2), 0).unwrap();
    s.run();
    assert_eq!(s.current(), Some(a));
    s.terminate(a);
    // Preempted, woken and handed off to, it stays dead.
    let switch = s.on_tick().unwrap();
    assert_eq!(switch.to, Some(b));
    assert_eq!(s.thread_state(a), Some(ThreadState::Exited));
    s.unblock(a);
    assert_eq!(s.thread_state(a), Some(ThreadState::Exited));
    let c = s.add_thread(thread(3), 0).unwrap();
    let instead = s.handoff_to(a);
    assert_eq!(instead.to, Some(c), "the next ready thread takes its place");
    assert_eq!(s.thread_state(a), Some(ThreadState::Exited));
    assert_eq!(s.thread_state(b), Some(ThreadState::Blocked));
    assert_eq!(s.block_current().to, None);
    assert!(s.reap(a).is_some());
}

#[test]
fn a_terminated_thread_that_blocks_is_not_brought_back() {
    let mut s = Scheduler::new(4, 0);
    let a = s.add_thread(thread(1), 0).unwrap();
    s.run();
    s.terminate(a);
    assert_eq!(s.block_current().to, None);
    assert_eq!(s.thread_state(a), Some(ThreadState::Exited));
    s.unblock(a);
    assert_eq!(s.run(), None);
}

#[test]
fn reaping_frees_the_slot_but_never_the_running_thread() {
    let mut s = Scheduler::new(1, 0);
    let a = s.add_thread(thread(1), 0).unwrap();
    let b = s.add_thread(thread(2), 0).unwrap();
    s.run();
    assert!(s.reap(a).is_none());
    let gone = s.reap(b).unwrap();
    assert_eq!(gone.id, ThreadId(2));
    assert_eq!(s.thread_at(b), None);
    assert_eq!(s.block_current().to, None, "it left the queue too");
}

#[test]
fn waking_by_slot_and_name_refuses_a_recycled_slot() {
    let mut s = Scheduler::new(1, 0);
    let a = s.add_thread(thread(1), 0).unwrap();
    s.run();
    s.block_current();
    s.reap(a);
    let again = s.add_thread(thread(5), 0).unwrap();
    assert_eq!(again, a);
    assert!(!s.unblock_thread(a, ThreadId(1)));
    assert!(s.unblock_thread(a, ThreadId(5)));
}

#[test]
fn a_handoff_is_one_switch_to_the_target() {
    let mut s = Scheduler::new(1, 0);
    let a = s.add_thread(thread(1), 0).unwrap();
    let b = s.add_thread(thread(2), 0).unwrap();
    let c = s.add_thread(thread(3), 0).unwrap();
    s.run();
    let before = s.switch_count();
    let h = s.handoff_to(c);
    assert_eq!((h.from, h.to), (Some(a), Some(c)));
    assert_eq!(s.switch_count(), before + 1);
    assert_eq!(s.thread_state(a), Some(ThreadState::Blocked));
    assert_eq!(s.block_current().to, Some(b));
}

#[test]
fn a_full_thread_table_refuses() {
    let mut s = Scheduler::new(1, 0);
    for i in 0..MAX_THREADS {
        s.add_thread(thread(i as u64 + 1), 0).unwrap();
    }
    assert_eq!(s.add_thread(thread(999), 0), Err(KError::OutOfMemory));
}
