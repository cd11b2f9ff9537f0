//! Devices: the graph, leases, interrupt routes, reclaiming and removal.
use kcore::devmgr::{DeviceAperture, DeviceIdentity};
use kcore::error::KError;
use kcore::exec::devices::{DmaFault, IsolationPolicy};
use kcore::exec::messaging::CallStep;
use kcore::exec::ports::Step;
use kcore::exec::reclaim::{Handback, LostCause};
use kcore::exec::records::{DeviceRecord, EndReason};
use kcore::exec::removal::{reset_outcome, ResetPolicy, ResetStep, StateNumbers};
use kcore::exec::{Executive, IRQ_PORT_SIGNAL, IRQ_PORT_SIGNAL_REMOVED};
use kcore::hardware::{DmaOp, DmaQueue, MaskQueue, NoDma, NoRouter};
use kcore::ipc::{EndpointId, Message, MessageHeader, QUEUE_CAP};
use kcore::lifecycle::{DriverState, TransitionError};
use kcore::memory::Attachment;
use kcore::object::ObjectId;
use kcore::process::{Process, ProcessTable, WindowRevokeReason, WindowRevoked};
use kcore::rights::Rights;
use kcore::space::{QueuedSpace, SpaceOp};
use kcore::thread::{Thread, ThreadId, ThreadState};

const BUS: ObjectId = ObjectId(50);
const DISK: ObjectId = ObjectId(51);
const NET: ObjectId = ObjectId(52);
const DRIVER: ObjectId = ObjectId(90);
const NUMBERS: StateNumbers = StateNumbers {
    discovered: 1,
    matched: 2,
    starting: 3,
    probing: 4,
    active: 5,
    suspending: 6,
    suspended: 7,
    resuming: 8,
    resetting: 9,
    degraded: 10,
    stopping: 11,
    removed: 12,
    failed: 13,
};
const REASON: u32 = 0x0102_0304;

fn rights() -> Rights {
    Rights::from_bits(Rights::READ | Rights::MAP | Rights::TRANSFER)
}

fn machine() -> Executive {
    let mut exec = Executive::new(4, 0);
    for (id, base) in [(BUS, 0xa000u64), (DISK, 0xb000), (NET, 0xc000)] {
        exec.device_register_mmio(id, base, 0x1000, rights()).unwrap();
    }
    exec.device_set_parent(DISK, BUS).unwrap();
    exec.device_set_parent(NET, DISK).unwrap();
    exec
}

fn aperture() -> DeviceAperture {
    DeviceAperture {
        base: 0x10_0000,
        len: 0x4000,
    }
}

fn process(id: ObjectId) -> Process<QueuedSpace> {
    Process::new(id, QueuedSpace::new())
}

#[test]
fn the_graph_refuses_duplicates_loops_and_strangers() {
    let mut exec = machine();
    assert_eq!(
        exec.device_register_mmio(BUS, 0, 1, rights()),
        Err(KError::AlreadyMapped)
    );
    assert_eq!(exec.device_set_parent(BUS, NET), Err(KError::Protocol));
    assert_eq!(exec.device_set_parent(BUS, BUS), Err(KError::Protocol));
    assert_eq!(exec.device_set_parent(ObjectId(1), BUS), Err(KError::BadHandle));
    assert!(exec.device_is_descendant_of(NET, BUS));
    assert!(exec.device_is_descendant_of(BUS, BUS));
    assert!(!exec.device_is_descendant_of(BUS, NET));
    assert_eq!(exec.device_parent_of(NET), Some(DISK));
    assert_eq!(exec.device_children_of(BUS), vec![DISK]);
    assert_eq!(exec.mmio_of_object(DISK), Some((0xb000, 0x1000)));
    assert_eq!(exec.device_rights_of_object(DISK), Some(rights()));
    assert!(exec.device_known(NET));
    assert!(!exec.device_known(ObjectId(1)));
}

#[test]
fn devices_are_described_as_they_were_registered() {
    let mut exec = Executive::new(4, 0);
    let identity = DeviceIdentity {
        vendor: 0x1af4,
        device: 0x1001,
        class_code: 0x01_0000,
    };
    exec.device_register(ObjectId(1), 0x3f8, 8, 4, rights()).unwrap();
    exec.device_register_identified(ObjectId(2), 0x9000, 0x100, rights(), identity)
        .unwrap();
    exec.device_register_declared(ObjectId(3), None, Some((0xe000, 256)), rights(), identity)
        .unwrap();
    assert_eq!(exec.device_of_object(ObjectId(1)), Some((0x3f8, 8)));
    assert_eq!(exec.mmio_of_object(ObjectId(1)), None);
    assert_eq!(exec.identity_of_object(ObjectId(2)), Some(identity));
    assert_eq!(exec.config_of_object(ObjectId(3)), Some((0xe000, 256)));
    assert_eq!(exec.mmio_of_object(ObjectId(3)), None);
    assert!(!exec.device_requires_contiguity(ObjectId(3)));
    exec.device_set_requires_contiguity(ObjectId(3), true).unwrap();
    assert!(exec.device_requires_contiguity(ObjectId(3)));
    exec.device_set_mmio_irq(ObjectId(2), 33).unwrap();
    exec.device_add_mmio_irq(ObjectId(2), 34).unwrap();
    let mut lines = [0u32; 3];
    assert_eq!(exec.intids_of_object(ObjectId(2), &mut lines), 2);
    assert_eq!(lines, [33, 34, 0]);
    assert_eq!(exec.device_intid(ObjectId(2)), Some(33));
}

#[test]
fn a_lease_is_spent_once_and_ends_in_the_hardware_first() {
    let mut exec = machine();
    exec.device_set_aperture(DISK, DRIVER, aperture(), Some(100)).unwrap();
    assert_eq!(exec.device_allocate_in_aperture(DISK, 0x1000), Some(0x10_0000));
    assert_eq!(exec.device_allocate_in_aperture(DISK, 0x3000), Some(0x10_1000));
    assert_eq!(exec.device_allocate_in_aperture(DISK, 1), None);
    assert_eq!(exec.lease_holder_of_object(DISK), Some(DRIVER));
    let object = exec.memory_create_paged(DRIVER, 1, ObjectId(3)).unwrap();
    exec.memory_attach(
        object,
        Attachment {
            device: DISK,
            address: 0x10_0000,
            len: 4096,
            scoped: true,
        },
    )
    .unwrap();
    let mut unit = DmaQueue::new();
    let mut log = Vec::new();
    let why = EndReason::GivenUp;
    assert!(
        !exec.end_device_lease(ObjectId(1), DISK, why, &mut unit, &mut log),
        "not its holder"
    );
    assert!(log.is_empty());
    assert!(exec.end_device_lease(DRIVER, DISK, why, &mut unit, &mut log));
    assert_eq!(
        log,
        vec![DeviceRecord::LeaseEnded {
            device: DISK,
            holder: DRIVER,
            reason: EndReason::GivenUp,
        }]
    );
    assert_eq!(unit.pending(), &[DmaOp::EndLease(DISK)]);
    assert_eq!(exec.aperture_of_object(DISK), None);
    assert_eq!(exec.memory_attachment_of(object), None);
    assert_eq!(exec.memory_remembered_address(object, DISK), None);
    assert!(!exec.end_device_lease(DRIVER, DISK, why, &mut unit, &mut log));
}

#[test]
fn leases_expire_at_their_deadline_unless_renewed() {
    let mut exec = machine();
    exec.device_set_aperture(DISK, DRIVER, aperture(), Some(100)).unwrap();
    exec.device_set_aperture(NET, DRIVER, aperture(), Some(100)).unwrap();
    exec.device_set_aperture(BUS, DRIVER, aperture(), None).unwrap();
    assert!(exec.renew_device_lease(NET, DRIVER, Some(200)));
    assert!(!exec.renew_device_lease(NET, ObjectId(1), Some(300)));
    let mut unit = NoDma;
    let mut log = Vec::new();
    assert_eq!(exec.expire_leases(0, 99, &mut unit, &mut log, 70), 0);
    assert_eq!(exec.expire_leases(0, 100, &mut unit, &mut log, 71), 1);
    assert_eq!(
        log,
        vec![DeviceRecord::LeaseEnded {
            device: DISK,
            holder: DRIVER,
            reason: EndReason::Expired,
        }]
    );
    assert_eq!(exec.lease_holder_of_object(DISK), None);
    assert_eq!(exec.lease_holder_of_object(NET), Some(DRIVER));
    assert_eq!(exec.end_device_leases(0, &process(DRIVER), &mut unit, &mut log, 72), 2);
    assert_eq!(log.len(), 3);
    assert_eq!(exec.lease_holder_of_object(BUS), None);
}

#[test]
fn isolation_follows_its_policy() {
    let mut exec = machine();
    exec.device_set_aperture(DISK, DRIVER, aperture(), None).unwrap();
    let fault = DmaFault {
        device: Some(DISK),
        address: 0xdead_0000,
        kind: 2,
    };
    let mut unit = DmaQueue::new();
    let mut log = Vec::new();
    let observed = exec.isolate_dma_fault(fault, IsolationPolicy::Observe, &mut unit, &mut log);
    assert!(!observed.isolated);
    let unknown = DmaFault {
        device: None,
        ..fault
    };
    let unknown = exec.isolate_dma_fault(unknown, IsolationPolicy::EndLease, &mut unit, &mut log);
    assert!(!unknown.isolated);
    assert!(log.is_empty());
    assert!(unit.pending().is_empty());
    let policy = IsolationPolicy::EndLeaseAndStop;
    let outcome = exec.isolate_dma_fault(fault, policy, &mut unit, &mut log);
    assert!(outcome.isolated);
    assert_eq!(outcome.stop, Some(DRIVER));
    assert_eq!(
        log,
        vec![
            DeviceRecord::LeaseEnded {
                device: DISK,
                holder: DRIVER,
                reason: EndReason::FaultIsolated,
            },
            DeviceRecord::Isolated {
                device: DISK,
                holder: DRIVER,
                policy,
                kind: 2,
            },
        ]
    );
    let again = exec.isolate_dma_fault(fault, IsolationPolicy::EndLease, &mut unit, &mut log);
    assert!(!again.isolated, "there is no lease left");
}

#[test]
fn a_route_delivers_until_it_is_masked() {
    let mut exec = machine();
    let port = exec.port_create().unwrap();
    assert_eq!(
        exec.device_route_irq(DISK, port, DRIVER),
        Err(KError::InvalidMapping),
        "it has no line"
    );
    exec.device_set_mmio_irq(DISK, 40).unwrap();
    exec.device_add_mmio_irq(DISK, 41).unwrap();
    assert_eq!(exec.device_route_irq(DISK, port, DRIVER), Ok(()));
    assert_eq!(
        exec.device_route_irq(DISK, port, DRIVER),
        Err(KError::AlreadyMapped)
    );
    assert_eq!(
        exec.device_route_irq_line(DISK, 99, port, DRIVER),
        Err(KError::InvalidMapping)
    );
    assert_eq!(exec.device_route_irq_line(DISK, 41, port, DRIVER), Ok(()));
    assert_eq!(exec.port_signal(0, 40, IRQ_PORT_SIGNAL, 1), 1);
    let mut masks = MaskQueue::new();
    let mut log = Vec::new();
    assert_eq!(exec.end_device_irq_routes(0, &process(DRIVER), &mut masks, &mut log, 73), 1);
    let ended = |intid| DeviceRecord::RouteEnded {
        device: DISK,
        intid,
        holder: DRIVER,
        reason: EndReason::HolderGone,
    };
    assert_eq!(log, vec![ended(40), ended(41)]);
    assert_eq!(masks.pending(), &[40, 41], "every line, not just the first");
    assert_eq!(exec.irq_route_of_object(DISK), None);
    assert_eq!(exec.port_signal(0, 41, IRQ_PORT_SIGNAL, 1), 0);
}

#[test]
fn a_dead_drivers_devices_come_back_except_in_quarantine() {
    let mut exec = machine();
    let (manager, kernel_end) = exec.channel_create().unwrap();
    let mut driver = process(DRIVER);
    let narrow = Rights::from_bits(Rights::READ);
    for id in [DISK, NET] {
        driver.handles_mut().insert(id, narrow).unwrap();
    }
    let other = driver.handles_mut().insert(ObjectId(7), narrow).unwrap();
    exec.device_set_aperture(DISK, DRIVER, aperture(), None).unwrap();
    let mut records = Vec::new();
    assert!(exec.quarantine_device(NET, 3, 1, &mut records));
    assert!(!exec.quarantine_device(NET, 4, 1, &mut records));
    assert_eq!(
        records,
        vec![DeviceRecord::Quarantined {
            device: NET,
            faults: 3,
            policy: 1,
        }]
    );
    records.clear();
    let mut log = Vec::new();
    let mut unit = DmaQueue::new();
    let mut masks = NoRouter;
    let sent = exec.reclaim_devices(
        0,
        &mut driver,
        kernel_end,
        &mut unit,
        &mut masks,
        &mut log,
        &mut records,
        77,
    );
    assert_eq!(sent, 1);
    assert_eq!(
        log,
        vec![Handback::Sent {
            object: DISK,
            rights: rights(),
        }],
        "a device withheld is not lost"
    );
    assert_eq!(
        records,
        vec![DeviceRecord::LeaseEnded {
            device: DISK,
            holder: DRIVER,
            reason: EndReason::HolderGone,
        }]
    );
    assert_eq!(unit.pending(), &[DmaOp::EndLease(DISK)]);
    let m = exec.try_receive(0, manager).unwrap();
    assert!(m.inline().is_empty(), "the capability is the whole message");
    assert_eq!(m.header().correlation, 77);
    assert_eq!(m.handles()[0].object, DISK);
    assert_eq!(m.handles()[0].rights, rights(), "with the graph's authority");
    assert!(exec.try_receive(0, manager).is_err());
    assert!(!driver.handles().holds(DISK));
    assert!(!driver.handles().holds(NET));
    assert_eq!(driver.handles().object(other), Ok(ObjectId(7)));
    assert!(exec.release_from_quarantine(NET));
}

#[test]
fn more_devices_than_a_message_holds_all_come_back() {
    let mut exec = Executive::new(4, 0);
    let (manager, kernel_end) = exec.channel_create().unwrap();
    let mut driver = process(DRIVER);
    for i in 0..6u32 {
        let id = ObjectId(100 + i);
        exec.device_register_mmio(id, 0, 1, rights()).unwrap();
        driver.handles_mut().insert(id, rights()).unwrap();
    }
    let mut unit = NoDma;
    let mut masks = NoRouter;
    let mut log = Vec::new();
    let sent = exec.reclaim_devices(
        0,
        &mut driver,
        kernel_end,
        &mut unit,
        &mut masks,
        &mut log,
        &mut Vec::new(),
        1,
    );
    assert_eq!(sent, 6);
    assert_eq!(log.len(), 6);
    for i in 0..6u32 {
        let m = exec.try_receive(0, manager).unwrap();
        assert_eq!(m.handles()[0].object, ObjectId(100 + i));
    }
}

#[test]
fn a_device_that_cannot_be_handed_back_is_reported_lost() {
    let mut exec = machine();
    let (_manager, kernel_end) = exec.channel_create().unwrap();
    for i in 0..QUEUE_CAP as u8 {
        let mut m = Message::new(MessageHeader::new(0, 0));
        m.set_inline(&[i]).unwrap();
        exec.send(0, kernel_end, m).unwrap();
    }
    let mut driver = process(DRIVER);
    driver.handles_mut().insert(DISK, rights()).unwrap();
    let mut unit = NoDma;
    let mut masks = NoRouter;
    let mut log = Vec::new();
    let sent = exec.reclaim_devices(
        0,
        &mut driver,
        kernel_end,
        &mut unit,
        &mut masks,
        &mut log,
        &mut Vec::new(),
        1,
    );
    assert_eq!(sent, 0);
    assert_eq!(
        log,
        vec![Handback::Lost {
            object: DISK,
            cause: LostCause::QueueFull,
        }]
    );
    assert_eq!(LostCause::NoHandleRoom.code(), 1);
    assert_eq!(LostCause::QueueFull.code(), 2);
    assert_eq!(LostCause::NotInGraph.code(), 3);
}

#[test]
fn a_bus_takes_everything_behind_it() {
    let mut exec = machine();
    let mut processes: ProcessTable<QueuedSpace> = ProcessTable::new();
    let index = processes.insert(process(DRIVER)).unwrap();
    {
        let p = processes.get_mut(index).unwrap();
        p.handles_mut().insert(NET, rights()).unwrap();
        p.handles_mut().insert(NET, rights()).unwrap();
        p.record_device_window(NET, 0x7000_0000, 1).unwrap();
    }
    let (service, kernel_end) = exec.channel_create().unwrap();
    exec.device_add_dependent(NET, kernel_end).unwrap();
    // A driver parked on the interrupt of a device that leaves is woken.
    let port = exec.port_create().unwrap();
    exec.device_set_mmio_irq(NET, 60).unwrap();
    exec.device_route_irq(NET, port, DRIVER).unwrap();
    let t = exec
        .add_thread(
            0,
            Thread {
                id: ThreadId(4),
                state: ThreadState::Blocked,
                priority: 1,
                correlation: 0,
                process: Some(DRIVER),
                recv_deadline: None,
                kernel_stack_base: 0,
                kernel_stack_top: 0,
                space_root: None,
            },
            0,
        )
        .unwrap();
    exec.run(0, 0);
    assert!(matches!(exec.port_wait(0, port), Step::Park(_)));
    let mut records = Vec::new();
    exec.declare_lifecycle(
        NET,
        DriverState::Discovered,
        DriverState::Matched,
        4,
        99,
        &mut records,
    )
    .unwrap();
    assert_eq!(
        records,
        vec![DeviceRecord::Transition {
            device: NET,
            from: DriverState::Discovered,
            to: DriverState::Matched,
            reason: 4,
            detail: 99,
        }]
    );
    records.clear();
    let mut log = Vec::new();
    exec.device_set_aperture(DISK, DRIVER, aperture(), None).unwrap();
    let mut unit = DmaQueue::new();
    let mut masks = MaskQueue::new();
    let report = exec.remove_device(
        0,
        BUS,
        NUMBERS,
        REASON,
        &mut processes,
        &mut unit,
        &mut masks,
        &mut log,
        &mut records,
        5,
    );
    assert_eq!(
        log,
        vec![WindowRevoked {
            object: NET,
            va: 0x7000_0000,
            reason: WindowRevokeReason::Removed,
            failed: None,
        }]
    );
    assert_eq!(
        records,
        vec![
            DeviceRecord::RouteEnded {
                device: NET,
                intid: 60,
                holder: DRIVER,
                reason: EndReason::Removed,
            },
            DeviceRecord::Transition {
                device: NET,
                from: DriverState::Matched,
                to: DriverState::Removed,
                reason: REASON,
                detail: 0,
            },
            DeviceRecord::Removed {
                device: NET,
                holders: 1,
                windows: 1,
                dependents: 1,
            },
            DeviceRecord::LeaseEnded {
                device: DISK,
                holder: DRIVER,
                reason: EndReason::Removed,
            },
            DeviceRecord::Transition {
                device: DISK,
                from: DriverState::Discovered,
                to: DriverState::Removed,
                reason: REASON,
                detail: 0,
            },
            DeviceRecord::Removed {
                device: DISK,
                holders: 0,
                windows: 0,
                dependents: 0,
            },
            DeviceRecord::Transition {
                device: BUS,
                from: DriverState::Discovered,
                to: DriverState::Removed,
                reason: REASON,
                detail: 0,
            },
            DeviceRecord::Removed {
                device: BUS,
                holders: 0,
                windows: 0,
                dependents: 0,
            },
        ]
    );
    assert!(report.existed);
    assert_eq!(report.subtree, 3);
    assert_eq!((report.holders, report.windows), (1, 1));
    assert_eq!((report.dependents_told, report.dependents_missed), (1, 0));
    assert_eq!(report.woken, 1);
    assert_eq!(unit.pending(), &[DmaOp::EndLease(DISK)]);
    assert_eq!(masks.pending(), &[60]);
    for id in [BUS, DISK, NET] {
        assert!(!exec.device_known(id));
    }
    let p = processes.get_mut(index).unwrap();
    assert!(!p.handles().holds(NET));
    assert_eq!(p.device_window_count(), 0);
    assert_eq!(
        p.space().pending(),
        &[SpaceOp::UnmapDevice {
            va: 0x7000_0000,
            pages: 1,
        }]
    );
    let notice = exec.try_receive(0, service).unwrap();
    assert_eq!(
        notice.inline(),
        &[
            32, 0, 0, 0, 1, 0, 0, 0, 0, 0, 0, 0, 0, 0, 0, 0, 52, 0, 0, 0, 12, 0, 0, 0, 4, 3, 2, 1,
            0, 0, 0, 0
        ]
    );
    assert_eq!(exec.scheduler(0).thread_state(t), Some(ThreadState::Ready));
    let event = match exec.port_wait_resume(0, port) {
        Step::Done(e) => e.unwrap(),
        Step::Park(_) => panic!("the removal was signalled"),
    };
    assert_eq!((event.source, event.signal), (60, IRQ_PORT_SIGNAL_REMOVED));
    assert_eq!(exec.lifecycle_state_of(NET), Some(DriverState::Removed));
    let again = exec.remove_device(
        0,
        BUS,
        NUMBERS,
        REASON,
        &mut processes,
        &mut unit,
        &mut masks,
        &mut log,
        &mut records,
        5,
    );
    assert_eq!((log.len(), records.len()), (1, 8));
    assert!(!again.existed);
    assert_eq!(again.subtree, 0);
}

#[test]
fn removing_a_leaf_leaves_its_bus() {
    let mut exec = machine();
    let mut processes: ProcessTable<QueuedSpace> = ProcessTable::new();
    let mut unit = NoDma;
    let mut masks = NoRouter;
    let report = exec.remove_device(
        0,
        NET,
        NUMBERS,
        REASON,
        &mut processes,
        &mut unit,
        &mut masks,
        &mut Vec::new(),
        &mut Vec::new(),
        0,
    );
    assert_eq!(report.subtree, 1);
    assert!(exec.device_known(BUS));
    assert!(exec.device_known(DISK));
    assert!(exec.device_children_of(DISK).is_empty());
}

#[test]
fn an_unreachable_dependent_is_counted() {
    let mut exec = machine();
    let nowhere = EndpointId {
        channel: 63,
        side: 1,
    };
    let (service, kernel_end) = exec.channel_create().unwrap();
    exec.device_add_dependent(DISK, nowhere).unwrap();
    exec.device_add_dependent(DISK, kernel_end).unwrap();
    assert_eq!(exec.notify_dependents(0, DISK, NUMBERS, DriverState::Failed, 7, 1), (1, 1));
    assert_eq!(exec.notify_dependents(0, NET, NUMBERS, DriverState::Failed, 7, 1), (0, 0));
    let notice = exec.try_receive(0, service).unwrap();
    assert_eq!(&notice.inline()[20..28], &[13, 0, 0, 0, 7, 0, 0, 0]);
}

#[test]
fn a_bus_does_not_suspend_under_a_device_in_service() {
    let mut exec = machine();
    let mut log = Vec::new();
    for (from, to) in [
        (DriverState::Discovered, DriverState::Matched),
        (DriverState::Matched, DriverState::Starting),
        (DriverState::Starting, DriverState::Probing),
        (DriverState::Probing, DriverState::Active),
    ] {
        exec.declare_lifecycle(BUS, from, to, 0, 0, &mut log).unwrap();
        exec.declare_lifecycle(DISK, from, to, 0, 0, &mut log).unwrap();
    }
    assert_eq!(
        exec.declare_lifecycle(BUS, DriverState::Active, DriverState::Suspending, 0, 0, &mut log),
        Err(TransitionError::OutOfOrder {
            neighbour: DISK,
            state: DriverState::Active,
        })
    );
    exec.declare_lifecycle(DISK, DriverState::Active, DriverState::Suspending, 0, 0, &mut log)
        .unwrap();
    exec.declare_lifecycle(DISK, DriverState::Suspending, DriverState::Suspended, 0, 0, &mut log)
        .unwrap();
    exec.declare_lifecycle(BUS, DriverState::Active, DriverState::Suspending, 0, 0, &mut log)
        .unwrap();
    assert_eq!(
        exec.declare_lifecycle(DISK, DriverState::Suspended, DriverState::Resuming, 0, 0, &mut log),
        Err(TransitionError::OutOfOrder {
            neighbour: BUS,
            state: DriverState::Suspending,
        })
    );
}

#[test]
fn a_reset_is_declined_refused_or_attempted() {
    let exec = machine();
    let declined = exec.reset_device(DISK, ResetPolicy::Never, true);
    assert_eq!(reset_outcome(&declined, Ok(())), Ok(false));
    let refused = exec.reset_device(DISK, ResetPolicy::OnFailure, false);
    assert_eq!(reset_outcome(&refused, Ok(())), Err(KError::NotSupported));
    let tried = exec.reset_device(DISK, ResetPolicy::OnFailure, true);
    assert!(matches!(
        tried,
        ResetStep::Attempt {
            window: Some((0xb000, 0x1000)),
            ..
        }
    ));
    assert_eq!(reset_outcome(&tried, Ok(())), Ok(true));
    assert_eq!(
        reset_outcome(&tried, Err(KError::TimedOut)),
        Err(KError::TimedOut)
    );
}

/// What a message sent right now from CPU 0 is attributed to.
fn sent_for(exec: &mut Executive) -> u64 {
    let (a, b) = exec.channel_create().unwrap();
    exec.send(0, a, Message::new(MessageHeader::new(0, 0))).unwrap();
    exec.try_receive(2, b).unwrap().header().correlation
}

#[test]
fn a_sweep_is_the_cause_of_what_follows_it() {
    let mut exec = machine();
    let running = Thread {
        id: ThreadId(4),
        state: ThreadState::Blocked,
        priority: 1,
        correlation: 0,
        process: Some(DRIVER),
        recv_deadline: None,
        kernel_stack_base: 0,
        kernel_stack_top: 0,
        space_root: None,
    };
    exec.add_thread(0, running, 500).unwrap();
    assert_eq!(sent_for(&mut exec), 0, "nothing is the cause of a boot");
    exec.run(0, 0);
    assert_eq!(sent_for(&mut exec), 500);
    let mut unit = NoDma;
    let mut masks = NoRouter;
    let mut log = Vec::new();
    // A sweep that finds nothing reroots nobody's trace.
    assert_eq!(exec.expire_leases(0, 100, &mut unit, &mut log, 81), 0);
    let gone = process(DRIVER);
    assert_eq!(exec.end_device_irq_routes(0, &gone, &mut masks, &mut log, 82), 0);
    assert_eq!(
        exec.notify_dependents(0, DISK, NUMBERS, DriverState::Failed, 7, 83),
        (0, 0)
    );
    assert_eq!(sent_for(&mut exec), 500);
    exec.device_set_aperture(DISK, DRIVER, aperture(), Some(100)).unwrap();
    assert_eq!(exec.expire_leases(0, 100, &mut unit, &mut log, 84), 1);
    assert_eq!(sent_for(&mut exec), 84);
    assert_eq!(exec.current_cause(1), 0, "another CPU is not affected");
    assert_eq!(
        exec.scheduler(0).thread_correlation(0),
        Some(500),
        "nor is the thread's own cause"
    );
    // The sweep of leases is a beginning whether or not it finds one.
    assert_eq!(exec.end_device_leases(0, &gone, &mut unit, &mut log, 85), 0);
    assert_eq!(sent_for(&mut exec), 85);
    // A call is made for its caller, and a switch ends the sweep.
    let (a, b) = exec.channel_create().unwrap();
    assert!(matches!(
        exec.call(0, a, Message::new(MessageHeader::new(0, 0))),
        CallStep::Parked(_, _)
    ));
    assert_eq!(exec.try_receive(2, b).unwrap().header().correlation, 500);
    assert_eq!(exec.current_cause(0), 0, "the boot context runs");
}

#[test]
fn an_adopted_cause_takes_the_place_of_a_sweeps() {
    let mut exec = machine();
    let (a, b) = exec.channel_create().unwrap();
    let mut driver = process(DRIVER);
    driver.handles_mut().insert(DISK, rights()).unwrap();
    let mut unit = NoDma;
    let mut masks = NoRouter;
    let sender = Thread {
        id: ThreadId(4),
        state: ThreadState::Blocked,
        priority: 1,
        correlation: 0,
        process: None,
        recv_deadline: None,
        kernel_stack_base: 0,
        kernel_stack_top: 0,
        space_root: None,
    };
    exec.add_thread(0, sender, 600).unwrap();
    exec.run(0, 0);
    exec.send(0, a, Message::new(MessageHeader::new(0, 0))).unwrap();
    let sent = exec.reclaim_devices(
        0,
        &mut driver,
        a,
        &mut unit,
        &mut masks,
        &mut Vec::new(),
        &mut Vec::new(),
        90,
    );
    assert_eq!(sent, 1);
    assert_eq!(exec.current_cause(0), 90);
    exec.try_receive(0, b).unwrap();
    assert_eq!(exec.current_cause(0), 600);
    let mut processes: ProcessTable<QueuedSpace> = ProcessTable::new();
    let report = exec.remove_device(
        0,
        NET,
        NUMBERS,
        REASON,
        &mut processes,
        &mut unit,
        &mut masks,
        &mut Vec::new(),
        &mut Vec::new(),
        91,
    );
    assert!(report.existed);
    assert_eq!(exec.current_cause(0), 91);
    exec.adopt_cpu(0, 4, 0);
    assert_eq!(exec.current_cause(0), 91, "a fresh half does not change the cause");
    exec.reroot(0, 92);
    assert_eq!(sent_for(&mut exec), 92);
}

#[test]
fn a_subtree_leaves_by_its_first_leaves() {
    let mut exec = Executive::new(4, 0);
    for id in [10, 11, 12, 13, 14] {
        exec.device_register_mmio(ObjectId(id), 0, 1, rights()).unwrap();
    }
    // 10 has 11 and 12 behind it, 11 has 13 and 14.
    for (id, parent) in [(11, 10), (12, 10), (13, 11), (14, 11)] {
        exec.device_set_parent(ObjectId(id), ObjectId(parent)).unwrap();
    }
    let mut processes: ProcessTable<QueuedSpace> = ProcessTable::new();
    let mut records = Vec::new();
    let report = exec.remove_device(
        0,
        ObjectId(10),
        NUMBERS,
        REASON,
        &mut processes,
        &mut NoDma,
        &mut NoRouter,
        &mut Vec::new(),
        &mut records,
        1,
    );
    assert_eq!(report.subtree, 5);
    let order: Vec<u32> = records
        .iter()
        .filter_map(|r| match r {
            DeviceRecord::Removed { device, .. } => Some(device.0),
            _ => None,
        })
        .collect();
    assert_eq!(order, vec![13, 14, 11, 12, 10]);
}
