//! Page caches, write-back, the waits-for graph, and page-ins that stall.
use kcore::error::KError;
use kcore::exec::paging::{ServiceStep, StalledPageIn};
use kcore::exec::ports::Step;
use kcore::exec::Executive;
use kcore::ipc::{Message, MessageHeader};
use kcore::object::ObjectId;
use kcore::pager::{
    DeadlineOutcome, DirtyOutcome, MissOutcome, ObjectCache, PageInResult, PageInSupervisor,
    SelfPagingGraph, WriteBackReservation,
};
use kcore::thread::{Thread, ThreadId, ThreadState};

fn thread(id: u64) -> Thread {
    Thread {
        id: ThreadId(id),
        state: ThreadState::Blocked,
        priority: 1,
        correlation: 0,
        process: None,
        recv_deadline: None,
        kernel_stack_base: 0,
        kernel_stack_top: 0,
        space_root: None,
    }
}

fn message() -> Message {
    Message::new(MessageHeader::new(1, 1))
}

#[test]
fn a_dirty_page_is_never_evicted_and_dirt_is_bounded() {
    let mut cache = ObjectCache::new(1);
    cache.install(0).unwrap();
    cache.install(4096).unwrap();
    assert_eq!(cache.mark_dirty(0), DirtyOutcome::Marked);
    assert_eq!(cache.mark_dirty(0), DirtyOutcome::Marked, "already dirty");
    assert_eq!(cache.mark_dirty(4096), DirtyOutcome::Throttle);
    assert_eq!(cache.mark_dirty(8192), DirtyOutcome::Throttle, "not resident");
    assert_eq!(cache.evict_candidate(), Some(4096));
    cache.forget(4096);
    assert_eq!(cache.evict_candidate(), None);
    cache.mark_clean(0);
    assert_eq!(cache.evict_candidate(), Some(0));
    assert_eq!((cache.resident_count(), cache.dirty_count()), (1, 0));
}

#[test]
fn a_store_that_overtakes_its_write_back_is_reported() {
    let mut cache = ObjectCache::new(4);
    cache.install(0).unwrap();
    cache.mark_dirty(0);
    cache.begin_write_back(0);
    cache.mark_dirty(0);
    assert!(cache.end_write_back(0));
    cache.begin_write_back(0);
    assert!(!cache.end_write_back(0));
}

#[test]
fn a_fault_names_the_pages_that_were_lost() {
    let mut cache = ObjectCache::new(4);
    for page in [0u64, 4096, 8192] {
        cache.install(page).unwrap();
    }
    cache.mark_dirty(8192);
    cache.mark_dirty(0);
    let mut lost = [7u64; 4];
    assert_eq!(cache.fault(&mut lost), 2);
    assert_eq!(&lost[..3], &[0, 8192, 7]);
    assert!(cache.is_faulted());
    assert_eq!(cache.install(0), Err(KError::BadHandle));
}

#[test]
fn the_write_back_reservation_is_not_for_ordinary_use() {
    let mut r = WriteBackReservation::new(4, 1);
    for _ in 0..3 {
        assert!(r.alloc_ordinary().is_some());
    }
    assert!(r.at_pressure());
    assert!(r.alloc_ordinary().is_none());
    assert!(r.alloc_writeback().is_some());
    assert!(r.alloc_writeback().is_none());
    r.free_writeback();
    assert!(r.alloc_writeback().is_some());
    r.free_ordinary();
    assert!(!r.at_pressure());
}

#[test]
fn a_page_in_that_would_close_a_loop_is_refused() {
    let mut g = SelfPagingGraph::new();
    g.bind(100, 1).unwrap();
    g.bind(200, 2).unwrap();
    assert_eq!(g.request_page_in(1, 100), PageInResult::Cycle, "itself");
    assert_eq!(g.request_page_in(1, 300), PageInResult::Cycle, "nobody serves it");
    assert_eq!(g.request_page_in(1, 200), PageInResult::Served);
    assert_eq!(g.request_page_in(2, 100), PageInResult::Cycle, "through another");
    assert_eq!(g.in_flight(), 1);
    g.complete(1);
    assert_eq!(g.request_page_in(2, 100), PageInResult::Served);
}

#[test]
fn every_served_page_in_is_in_flight_until_it_completes() {
    let mut g = SelfPagingGraph::new();
    g.bind(100, 1000).unwrap();
    for requester in 0..20u32 {
        assert_eq!(g.request_page_in(requester, 100), PageInResult::Served);
        assert_eq!(g.in_flight(), requester as usize + 1);
    }
    g.bind(200, 19).unwrap();
    assert_eq!(
        g.request_page_in(1000, 200),
        PageInResult::Cycle,
        "the last one served counts like the first"
    );
    for requester in 0..20u32 {
        g.complete(requester);
    }
    assert_eq!(g.in_flight(), 0);
    assert_eq!(g.request_page_in(1000, 200), PageInResult::Served);
}

#[test]
fn misses_escalate_every_so_often() {
    let mut s = PageInSupervisor::new(10, 2);
    assert_eq!(s.check(100, 110), DeadlineOutcome::Pending);
    assert_eq!(s.check(100, 111), DeadlineOutcome::Expired);
    assert_eq!(s.check(100, 50), DeadlineOutcome::Pending);
    let first = s.record_miss();
    let second = s.record_miss();
    assert!(matches!(first, MissOutcome::Continue));
    assert!(matches!(second, MissOutcome::Escalate));
    assert_eq!((s.misses(), s.escalations()), (2, 1));
}

#[test]
fn a_stalled_page_in_fails_its_faulter_and_faults_the_object() {
    let mut exec = Executive::new(4, 0);
    let (client, server) = exec.channel_create().unwrap();
    let object = exec
        .memory_create_paged(ObjectId(3), 2, ObjectId(77))
        .unwrap();
    let t = exec.add_thread(0, thread(1), 0).unwrap();
    exec.run(0, 0);
    let pending = match exec.call_service(0, server, message(), object, 4096) {
        ServiceStep::Parked(p, _) => p,
        ServiceStep::Refused(e) => panic!("{e:?}"),
    };
    assert_eq!(
        exec.expire_stalled_page_ins(0),
        vec![StalledPageIn {
            object,
            offset: 4096,
            faulter: ThreadId(1),
            escalated: false,
        }]
    );
    assert_eq!(exec.page_in_misses(), 1);
    assert!(exec.memory_is_faulted(object));
    assert_eq!(exec.scheduler(0).thread_state(t), Some(ThreadState::Ready));
    exec.run(0, 0);
    assert_eq!(
        exec.call_service_resume(0, pending).err(),
        Some(KError::TimedOut)
    );
    // The late answer is dropped, and the next call does not find it.
    exec.reply_and_continue(0, server, message()).unwrap();
    assert_eq!(exec.try_receive(0, client).err(), Some(KError::WouldBlock));
}

#[test]
fn an_idle_machine_with_a_stalled_page_in_wants_another_pass() {
    let mut exec = Executive::new(4, 0);
    let (_client, server) = exec.channel_create().unwrap();
    exec.add_thread(0, thread(1), 0).unwrap();
    exec.run(0, 0);
    assert!(matches!(
        exec.call_service(0, server, message(), ObjectId(5), 0),
        ServiceStep::Parked(_, _)
    ));
    assert!(exec.run(0, 0).is_none());
    let mut log = Vec::new();
    assert!(exec.run_again(0, &mut log));
    assert_eq!(log.len(), 1);
    assert_eq!(log[0].object, ObjectId(5));
    assert!(exec.run(0, 0).is_some());
    let port = exec.port_create().unwrap();
    assert!(matches!(exec.port_wait(0, port), Step::Park(_)));
    assert!(!exec.run_again(0, &mut log), "somebody waits for the outside");
}
