//! Processes: threads by name, windows and mappings that leave with their
//! capability.
use kcore::error::KError;
use kcore::object::{ObjectId, ObjectTable, ObjectType};
use kcore::pmem::{BumpFrameAllocator, MemoryKind, MemoryRegion};
use kcore::process::{
    Process, ProcessState, ProcessTable, WindowRevokeReason, WindowRevoked, MAX_DEVICE_WINDOWS, MAX_PROCESSES,
    MAX_PROCESS_WAITERS, MAX_THREADS_PER_PROCESS,
};
use kcore::rights::Rights;
use kcore::space::{QueuedSpace, SpaceOp};
use kcore::thread::ThreadId;

const MAP: [MemoryRegion; 1] = [MemoryRegion {
    base: 0x1000,
    len: 0x4000,
    kind: MemoryKind::Usable,
}];

fn process(id: u32) -> Process<QueuedSpace> {
    Process::new(ObjectId(id), QueuedSpace::new())
}

#[test]
fn a_forgotten_thread_has_no_owner() {
    let mut table: ProcessTable<QueuedSpace> = ProcessTable::new();
    let a = table.insert(process(1)).unwrap();
    let b = table.insert(process(2)).unwrap();
    table.get_mut(a).unwrap().add_thread(ThreadId(5)).unwrap();
    table.get_mut(b).unwrap().add_thread(ThreadId(6)).unwrap();
    assert_eq!(table.owner_of_thread(ThreadId(6)).unwrap().id(), ObjectId(2));
    assert_eq!(table.process_of_thread(ThreadId(5)).unwrap().id(), ObjectId(1));
    table.forget_thread(ThreadId(6));
    assert!(table.owner_of_thread(ThreadId(6)).is_none());
    assert!(table.owner_of_thread(ThreadId(5)).is_some());
    assert_eq!(table.index_of_id(ObjectId(2)), Some(b));
    assert_eq!(table.remove(b).unwrap().id(), ObjectId(2));
    assert_eq!(table.index_of_id(ObjectId(2)), None);
    assert!(table.process_of_id(ObjectId(2)).is_none());
}

#[test]
fn tables_fill_up() {
    let mut table: ProcessTable<QueuedSpace> = ProcessTable::new();
    for i in 0..MAX_PROCESSES {
        table.insert(process(i as u32)).unwrap();
    }
    assert_eq!(table.insert(process(99)), Err(KError::OutOfMemory));
    let mut p = process(1);
    for i in 0..MAX_THREADS_PER_PROCESS as u64 {
        p.add_thread(ThreadId(i + 1)).unwrap();
    }
    assert_eq!(p.add_thread(ThreadId(50)), Err(KError::OutOfMemory));
    for i in 0..MAX_PROCESS_WAITERS as u64 {
        p.add_waiter(ThreadId(100 + i)).unwrap();
    }
    assert_eq!(p.add_waiter(ThreadId(200)), Err(KError::OutOfMemory));
    assert_eq!(p.take_waiters().len(), MAX_PROCESS_WAITERS);
    assert!(p.take_waiters().is_empty());
    for i in 0..MAX_DEVICE_WINDOWS as u64 {
        p.record_device_window(ObjectId(3), 0x1000 * i, 1).unwrap();
    }
    assert_eq!(
        p.record_device_window(ObjectId(3), 0, 1),
        Err(KError::LimitExceeded)
    );
}

#[test]
fn a_window_leaves_with_the_last_handle_to_its_device() {
    let mut objects = ObjectTable::new();
    let device = objects.create(ObjectType::Device).unwrap();
    let mut p = process(1);
    let h = p
        .handles_mut()
        .insert(device, Rights::from_bits(Rights::MAP))
        .unwrap();
    p.record_device_window(device, 0x7000, 2).unwrap();
    p.record_device_window(ObjectId(999), 0x9000, 1).unwrap();
    let mut log = Vec::new();
    let why = WindowRevokeReason::HandleClosed;
    assert!(!p.revoke_device_windows_unless_held(device, why, &mut log), "still held");
    assert!(log.is_empty());
    assert_eq!(p.device_window_count(), 2);
    p.handles_mut().close(&mut objects, h).unwrap();
    assert!(p.revoke_device_windows_unless_held(device, why, &mut log));
    assert_eq!(
        log,
        vec![WindowRevoked {
            object: device,
            va: 0x7000,
            reason: WindowRevokeReason::HandleClosed,
            failed: None,
        }]
    );
    assert_eq!(p.device_window_count(), 1);
    assert_eq!(
        p.space().pending(),
        &[SpaceOp::UnmapDevice {
            va: 0x7000,
            pages: 2,
        }]
    );
    p.forget_device_window(ObjectId(999), 0x9000);
    assert_eq!(p.device_window_count(), 0);
}

#[test]
fn a_mapping_is_reclaimed_over_exactly_its_range() {
    let mut alloc = BumpFrameAllocator::new(&MAP);
    let mut p = process(1);
    p.record_memory_mapping(ObjectId(8), 0x10_0000, 3).unwrap();
    p.record_memory_mapping(ObjectId(9), 0x20_0000, 1).unwrap();
    let mut mapped = [ObjectId(0); 4];
    assert_eq!(p.mapped_memory_objects(&mut mapped), 2);
    assert_eq!(&mapped[..2], &[ObjectId(8), ObjectId(9)]);
    let mut log = Vec::new();
    let why = WindowRevokeReason::Transferred;
    assert!(p.revoke_memory_mappings_unless_held(ObjectId(8), why, &mut alloc, &mut log));
    assert_eq!(
        log,
        vec![WindowRevoked {
            object: ObjectId(8),
            va: 0x10_0000,
            reason: WindowRevokeReason::Transferred,
            failed: None,
        }]
    );
    assert_eq!(
        p.space().pending(),
        &[SpaceOp::Reclaim {
            va: 0x10_0000,
            len: 3 * 4096,
            ok: true,
        }]
    );
    assert_eq!(p.memory_mapping_count(), 1);
}

#[test]
fn a_process_remembers_its_life() {
    let mut p = process(1);
    assert_eq!(p.state(), ProcessState::Created);
    p.set_running();
    assert_eq!(p.state(), ProcessState::Running);
    assert!(!p.is_exited());
    p.exit(-4);
    assert_eq!(p.state(), ProcessState::Exited(-4));
    assert_eq!(p.job(), None);
    p.set_job(ObjectId(77));
    assert_eq!(p.job(), Some(ObjectId(77)));
    assert_eq!(WindowRevokeReason::Removed.code(), 4);
    assert_eq!(WindowRevokeReason::Transferred.code(), 1);
}
