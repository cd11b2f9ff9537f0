//! Creating, populating, starting and waiting for a process.
use kcore::error::KError;
use kcore::exec::Executive;
use kcore::frame::FrameStore;
use kcore::handle::Handle;
use kcore::loader::{
    address_space_map, create, notify_exit, start, wait, wait_resume, LoaderEnv, LoaderOp,
    MapRequest, QueuedSupport, StartRequest, WaitStep,
};
use kcore::memory::Placement;
use kcore::object::{ObjectId, ObjectTable, ObjectType};
use kcore::pmem::{BumpFrameAllocator, MemoryKind, MemoryRegion};
use kcore::process::{Process, ProcessState, ProcessTable};
use kcore::rights::Rights;
use kcore::space::{PageFlags, QueuedSpace, SpaceOp};
use kcore::thread::{Thread, ThreadId, ThreadState};

const MAP: [MemoryRegion; 1] = [MemoryRegion {
    base: 0x1000,
    len: 0x1_0000,
    kind: MemoryKind::Usable,
}];

const PARENT: ThreadId = ThreadId(1);
const LIMIT: u64 = 0x8000_0000;

struct World {
    env: LoaderEnv<QueuedSupport>,
    exec: Executive,
    processes: ProcessTable<QueuedSpace>,
    alloc: BumpFrameAllocator<'static>,
    job: Handle,
}

fn world(windows: Vec<u64>) -> World {
    let mut objects = ObjectTable::new();
    let parent_object = objects.create(ObjectType::Process).unwrap();
    let job_object = objects.create(ObjectType::Job).unwrap();
    let mut exec = Executive::new(4, 0);
    let mut parent = Process::new(parent_object, QueuedSpace::new());
    parent.add_thread(PARENT).unwrap();
    let job = parent
        .handles_mut()
        .insert(job_object, Rights::from_bits(Rights::CREATE_PROCESS))
        .unwrap();
    let mut processes = ProcessTable::new();
    processes.insert(parent).unwrap();
    exec.add_thread(
        0,
        Thread {
            id: PARENT,
            state: ThreadState::Blocked,
            priority: 1,
            correlation: 0,
            process: Some(parent_object),
            recv_deadline: None,
            kernel_stack_base: 0,
            kernel_stack_top: 0,
            space_root: None,
        },
        0,
    )
    .unwrap();
    exec.run(0, 0);
    World {
        env: LoaderEnv {
            support: QueuedSupport::new(windows, 100, 4, 2),
            objects,
        },
        exec,
        processes,
        alloc: BumpFrameAllocator::new(&MAP),
        job,
    }
}

fn child(w: &mut World) -> (Handle, ObjectId) {
    let handle = create(&mut w.env, &mut w.processes, &mut w.alloc, PARENT, Ok(w.job)).unwrap();
    let object = w
        .processes
        .owner_of_thread(PARENT)
        .unwrap()
        .handles()
        .object(handle)
        .unwrap();
    (handle, object)
}

fn start_request(process: Handle) -> StartRequest {
    StartRequest {
        process,
        entry: 0x40_0000,
        arg: 3,
        stack: 0x7000_0000,
        message_ptr: 0,
        message_len: 0,
        message_va: 0,
    }
}

fn start_it(w: &mut World, request: StartRequest) -> Result<u64, KError> {
    start(
        &mut w.env,
        &mut w.exec,
        &mut w.processes,
        &mut w.alloc,
        0,
        PARENT,
        Ok(request),
        Ok(()),
        9,
    )
}

fn map_request(process: Handle) -> MapRequest {
    MapRequest {
        process,
        vaddr: 0x40_0000,
        length: 5000,
        rights: Rights::from_bits(Rights::READ | Rights::EXECUTE),
        src: 0x9000,
    }
}

#[test]
fn only_a_holder_of_the_job_creates_a_process() {
    let mut w = world(vec![]);
    let stranger = ThreadId(77);
    assert_eq!(
        create(&mut w.env, &mut w.processes, &mut w.alloc, stranger, Ok(w.job)),
        Err(KError::AccessDenied)
    );
    assert_eq!(
        create(
            &mut w.env,
            &mut w.processes,
            &mut w.alloc,
            PARENT,
            Err(KError::InvalidMapping)
        ),
        Err(KError::InvalidMapping)
    );
    let (handle, object) = child(&mut w);
    assert_eq!(w.env.objects.object_type(object), Some(ObjectType::Process));
    let p = w.processes.owner_of_thread(PARENT).unwrap();
    assert_eq!(
        p.handles().rights(handle),
        Ok(Rights::from_bits(Rights::READ | Rights::WRITE | Rights::MAP))
    );
    // The child's handle carries no authority to create.
    assert_eq!(
        create(&mut w.env, &mut w.processes, &mut w.alloc, PARENT, Ok(handle)),
        Err(KError::AccessDenied)
    );
    assert_eq!(w.env.support.pending(), &[LoaderOp::NewSpace { failed: None }]);
}

#[test]
fn code_is_placed_without_ever_being_writable_and_executable() {
    let mut w = world(vec![]);
    let (handle, object) = child(&mut w);
    let placed = address_space_map(
        &mut w.processes,
        &mut w.alloc,
        PARENT,
        Ok(map_request(handle)),
        Ok(()),
        LIMIT,
    );
    assert_eq!(placed, Ok(5000));
    let p = w.processes.process_of_id(object).unwrap();
    let rw = PageFlags {
        read: true,
        write: true,
        execute: false,
        user: true,
    };
    let rx = PageFlags {
        read: true,
        write: false,
        execute: true,
        user: true,
    };
    assert_eq!(
        p.space().pending(),
        &[
            SpaceOp::MapFresh {
                va: 0x40_0000,
                len: 8192,
                flags: rw,
                failed: None,
            },
            SpaceOp::CopyIn {
                va: 0x40_0000,
                src: 0x9000,
                len: 5000,
                failed: None,
            },
            SpaceOp::Protect {
                va: 0x40_0000,
                len: 8192,
                flags: rx,
                failed: None,
            },
        ]
    );
}

#[test]
fn a_bad_placement_is_refused_for_its_own_reason() {
    let mut w = world(vec![]);
    let (handle, object) = child(&mut w);
    let good = map_request(handle);
    let cases = [
        (MapRequest { length: 0, ..good }, KError::InvalidMapping),
        (
            MapRequest {
                rights: Rights::from_bits(Rights::WRITE | Rights::EXECUTE),
                ..good
            },
            KError::WXViolation,
        ),
        (
            MapRequest {
                process: w.job,
                ..good
            },
            KError::AccessDenied,
        ),
        (
            MapRequest {
                process: Handle::from_raw(0xffff),
                ..good
            },
            KError::BadHandle,
        ),
        (
            MapRequest {
                vaddr: LIMIT - 4096,
                ..good
            },
            KError::InvalidMapping,
        ),
        (
            MapRequest {
                src: 0,
                length: u64::MAX,
                ..good
            },
            KError::InvalidMapping,
        ),
    ];
    for (request, error) in cases {
        assert_eq!(
            address_space_map(
                &mut w.processes,
                &mut w.alloc,
                PARENT,
                Ok(request),
                Ok(()),
                LIMIT
            ),
            Err(error)
        );
    }
    assert_eq!(
        address_space_map(
            &mut w.processes,
            &mut w.alloc,
            PARENT,
            Ok(good),
            Err(KError::BadHandle),
            LIMIT
        ),
        Err(KError::BadHandle)
    );
    let p = w.processes.process_of_id(object).unwrap();
    assert!(p.space().pending().is_empty());
}

#[test]
fn a_process_starts_once() {
    let mut w = world(vec![0xa000, 0xb000]);
    let (handle, object) = child(&mut w);
    assert_eq!(start_it(&mut w, start_request(handle)), Ok(0));
    let p = w.processes.process_of_id(object).unwrap();
    assert_eq!(p.state(), ProcessState::Running);
    assert!(p.owns_thread(ThreadId(100)));
    let slot = w.exec.scheduler(0).index_of(ThreadId(100)).unwrap();
    assert_eq!(w.exec.scheduler(0).thread_state(slot), Some(ThreadState::Ready));
    assert_eq!(w.exec.scheduler(0).thread_correlation(slot), Some(9));
    assert_eq!(
        start_it(&mut w, start_request(handle)),
        Err(KError::AccessDenied)
    );
    let job = w.job;
    assert_eq!(
        start_it(&mut w, start_request(job)),
        Err(KError::AccessDenied)
    );
}

#[test]
fn a_failed_start_gives_its_window_back() {
    let mut w = world(vec![]);
    let (handle, _) = child(&mut w);
    assert_eq!(
        start_it(&mut w, start_request(handle)),
        Err(KError::OutOfMemory),
        "there is no window"
    );
    // A window so high that the stack does not fit the address space.
    let mut w = world(vec![u64::MAX]);
    let (handle, _) = child(&mut w);
    assert!(start_it(&mut w, start_request(handle)).is_err());
    assert!(matches!(
        w.env.support.pending().last(),
        Some(LoaderOp::ReleaseStack(u64::MAX))
    ));
}

#[test]
fn a_startup_message_lands_in_a_page_of_the_child() {
    let mut w = world(vec![0xa000]);
    let (handle, object) = child(&mut w);
    let request = StartRequest {
        message_ptr: 0x5000,
        message_len: 12,
        message_va: 0x6000_0000,
        ..start_request(handle)
    };
    let long = StartRequest {
        message_len: 4097,
        ..request
    };
    assert_eq!(start_it(&mut w, long), Err(KError::InvalidMapping));
    assert_eq!(start_it(&mut w, request), Ok(0));
    let p = w.processes.process_of_id(object).unwrap();
    assert!(matches!(
        p.space().pending()[0],
        SpaceOp::MapFresh {
            va: 0x6000_0000,
            len: 4096,
            ..
        }
    ));
    assert_eq!(
        p.space().pending()[1],
        SpaceOp::CopyIn {
            va: 0x6000_0000,
            src: 0x5000,
            len: 12,
            failed: None,
        }
    );
}

#[test]
fn waiting_for_a_child_reclaims_it() {
    let mut w = world(vec![0xa000]);
    let (handle, object) = child(&mut w);
    start_it(&mut w, start_request(handle)).unwrap();
    let mut contents = FrameStore::new();
    let memory = w
        .exec
        .memory_create(object, 1, Placement::default(), &mut contents, &mut w.alloc)
        .unwrap();
    let ticket = match wait(&mut w.exec, &mut w.processes, 0, PARENT, Ok(handle)) {
        WaitStep::Park(ticket, switch) => {
            assert!(switch.to.is_some(), "the child runs");
            ticket
        }
        _ => panic!("the child has not exited"),
    };
    // Resumed too early, it is refused.
    assert!(matches!(
        wait_resume(
            &mut w.env,
            &mut w.exec,
            &mut w.processes,
            &mut w.alloc,
            PARENT,
            ticket
        ),
        Err(KError::Protocol)
    ));
    assert!(notify_exit(
        &mut w.exec,
        &mut w.processes,
        0,
        ThreadId(100),
        -2
    ));
    w.exec.scheduler_at(0).exit_current();
    assert_eq!(w.exec.scheduler(0).current(), Some(0), "the parent runs again");
    let waited = wait_resume(
        &mut w.env,
        &mut w.exec,
        &mut w.processes,
        &mut w.alloc,
        PARENT,
        ticket,
    )
    .unwrap_or_else(|e| panic!("{e:?}"));
    assert_eq!(waited.code, 0xffff_fffe);
    let remains = waited.remains.unwrap();
    assert_eq!(remains.space().pending().last(), Some(&SpaceOp::Teardown));
    assert_eq!(w.processes.index_of_id(object), None);
    assert_eq!(w.exec.memory_pages_of(memory), None);
    assert_eq!(w.exec.scheduler(0).lookup(ThreadId(100)), None);
    assert_eq!(
        w.env.support.pending().last(),
        Some(&LoaderOp::ReleaseStack(0xa000))
    );
    let parent = w.processes.owner_of_thread(PARENT).unwrap();
    assert_eq!(parent.handles().object(handle), Err(KError::BadHandle));
    assert!(!w.env.objects.is_live(object));
}

#[test]
fn a_child_that_has_exited_is_not_waited_for() {
    let mut w = world(vec![0xa000]);
    let (handle, object) = child(&mut w);
    start_it(&mut w, start_request(handle)).unwrap();
    assert!(!notify_exit(&mut w.exec, &mut w.processes, 0, ThreadId(100), 7));
    assert!(matches!(
        wait(&mut w.exec, &mut w.processes, 0, PARENT, Ok(handle)),
        WaitStep::Ready(ticket) if ticket.child == object
    ));
    assert!(matches!(
        wait(&mut w.exec, &mut w.processes, 0, PARENT, Ok(w.job)),
        WaitStep::Refused(KError::AccessDenied)
    ));
    assert!(!notify_exit(&mut w.exec, &mut w.processes, 0, ThreadId(55), 0));
}

#[test]
fn a_waiter_on_another_cpu_is_woken_there_and_reclaims_from_there() {
    let mut w = world(vec![0xa000]);
    let (handle, object) = child(&mut w);
    start_it(&mut w, start_request(handle)).unwrap();
    let ticket = match wait(&mut w.exec, &mut w.processes, 0, PARENT, Ok(handle)) {
        WaitStep::Park(ticket, _) => ticket,
        _ => panic!("the child has not exited"),
    };
    // The exit is told from another CPU.
    assert!(notify_exit(
        &mut w.exec,
        &mut w.processes,
        1,
        ThreadId(100),
        0
    ));
    assert_eq!(w.exec.scheduler(0).thread_state(0), Some(ThreadState::Blocked));
    w.exec.drain_wakeups(0);
    assert_eq!(w.exec.scheduler(0).thread_state(0), Some(ThreadState::Ready));
    w.exec.scheduler_at(0).exit_current();
    let waited = wait_resume(
        &mut w.env,
        &mut w.exec,
        &mut w.processes,
        &mut w.alloc,
        PARENT,
        ticket,
    )
    .unwrap_or_else(|e| panic!("{e:?}"));
    assert_eq!(waited.code, 0);
    assert_eq!(w.processes.index_of_id(object), None);
    assert_eq!(w.exec.scheduler(0).lookup(ThreadId(100)), None);
}

#[test]
fn the_thread_that_was_made_is_the_one_that_is_queued() {
    let mut w = world(vec![0xa000]);
    let (handle, object) = child(&mut w);
    start_it(&mut w, start_request(handle)).unwrap();
    let made = w
        .env
        .support
        .pending()
        .iter()
        .find_map(|op| match op {
            LoaderOp::Spawn { made, .. } => *made,
            _ => None,
        })
        .unwrap();
    assert_eq!(made.id, ThreadId(100));
    assert_eq!(made.process, Some(object));
    let slot = w.exec.scheduler(0).lookup(made.id).unwrap();
    let queued = w.exec.scheduler(0).thread_at(slot).unwrap();
    assert_eq!(queued.kernel_stack_top, made.kernel_stack_top);
    assert_eq!(queued.kernel_stack_base, 0xa000);
    assert_eq!(queued.priority, made.priority);
}
