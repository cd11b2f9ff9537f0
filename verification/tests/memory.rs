//! Memory objects, frames, and the devices that reach them.
use std::cell::RefCell;

use kcore::config::{MAX_FREE_FRAMES, MAX_SHARED_FRAMES};
use kcore::error::KError;
use kcore::exec::Executive;
use kcore::frame::{FrameMemory, FrameSource, FrameStore, PhysFrame, PortFrames};
use kcore::hardware::{DmaOp, DmaQueue, NoDma};
use kcore::memory::{
    attach_permitted, Attachment, DestroyRefused, MemoryClass, MemoryTable, Placement, MAX_HOLDERS,
};
use kcore::object::ObjectId;
use kcore::pager::DirtyOutcome;
use kcore::pmem::{
    BumpFrameAllocator, FramePool, MemoryKind, MemoryRegion, ReclaimOverflow,
    RECLAIM_OVERFLOW_FREE_LIST_FULL, RECLAIM_OVERFLOW_SHARED_TABLE_FULL,
    RECLAIM_REFUSED_STILL_ATTACHED,
};
use kcore::rights::Rights;

const MAP: [MemoryRegion; 2] = [
    MemoryRegion {
        base: 0x1000,
        len: 0x4000,
        kind: MemoryKind::Usable,
    },
    MemoryRegion {
        base: 0x10_0000,
        len: 0x8000,
        kind: MemoryKind::Usable,
    },
];

const BIG: [MemoryRegion; 1] = [MemoryRegion {
    base: 0x100_0000,
    len: 0x1000 * 4096,
    kind: MemoryKind::Usable,
}];

fn frame(base: u64) -> PhysFrame {
    PhysFrame::from_base(base).unwrap()
}

#[test]
fn frames_come_in_ascending_order_and_are_reused() {
    let mut alloc = BumpFrameAllocator::new(&MAP);
    assert_eq!(alloc.total_usable_frames(), 12);
    let a = alloc.allocate().unwrap();
    let b = alloc.allocate().unwrap();
    assert!(a.base() < b.base());
    assert_eq!(a.base() % 4096, 0);
    alloc.release(a.base());
    assert_eq!(alloc.free_list_depth(), 1);
    assert_eq!(alloc.allocate(), Some(a));
    alloc.retain(b.base());
    assert_eq!(alloc.shared_frame_count(), 1);
    alloc.release(b.base());
    assert_eq!(alloc.shared_frame_count(), 0);
    assert_eq!(alloc.free_list_depth(), 0, "the first release only unshared it");
    alloc.release(b.base());
    assert_eq!(alloc.free_list_depth(), 1);
}

#[test]
fn a_pool_draws_in_advance_and_runs_dry() {
    let mut alloc = BumpFrameAllocator::new(&MAP);
    let mut pool: FramePool<4> = FramePool::new();
    assert_eq!(pool.fill(&mut alloc, 9), 4);
    assert_eq!(pool.remaining(), 4);
    for _ in 0..4 {
        assert!(pool.alloc_frame().is_some());
    }
    assert_eq!(pool.alloc_frame(), None);
}

#[test]
fn creating_and_destroying_restores_the_pool() {
    let mut table = MemoryTable::new();
    let mut alloc = BumpFrameAllocator::new(&MAP);
    let mut contents = FrameStore::new();
    let object = table
        .create(ObjectId(1), 3, Placement::default(), &mut contents, &mut alloc)
        .unwrap();
    for page in 0..3 {
        let frame = table.frame_at(object, page).unwrap();
        assert_eq!(contents.read(frame, 0), Some(0), "every page was cleared");
    }
    assert_eq!(table.pages_of(object), Some(3));
    assert_eq!(table.len_of(object), Some(3 * 4096));
    assert_eq!(table.slots_in_use(), 3);
    assert_eq!(table.destroy(object, &mut alloc), 3);
    assert_eq!(table.slots_in_use(), 0);
    assert_eq!(table.pages_of(object), None);
    assert_eq!(alloc.free_list_depth(), 3);
    let next = table
        .create(ObjectId(1), 1, Placement::default(), &mut contents, &mut alloc)
        .unwrap();
    assert_ne!(next, object, "a name is not reused");
}

#[test]
fn a_frame_never_carries_what_its_last_owner_left() {
    let mut table = MemoryTable::new();
    let mut alloc = BumpFrameAllocator::new(&MAP);
    let mut contents = FrameStore::new();
    let first = table
        .create(ObjectId(1), 1, Placement::default(), &mut contents, &mut alloc)
        .unwrap();
    let used = table.frame_at(first, 0).unwrap();
    let other = frame(0x10_7000);
    contents.fill(used, 0xa5);
    contents.fill(other, 0x5a);
    assert_eq!(contents.read(used, 4095), Some(0xa5));
    assert_eq!(contents.read(used, 4096), None);
    table.destroy(first, &mut alloc);
    let second = table
        .create(ObjectId(2), 1, Placement::default(), &mut contents, &mut alloc)
        .unwrap();
    assert_eq!(table.frame_at(second, 0), Some(used), "the frame is handed out again");
    for offset in 0..4096 {
        assert_eq!(contents.read(used, offset), Some(0));
    }
    assert_eq!(contents.read(other, 0), Some(0x5a), "and no other is touched");
    contents.zero_frame(other);
    assert_eq!(contents.read(other, 7), Some(0));
}

#[test]
fn a_frame_with_a_reference_that_could_not_be_counted_is_leaked() {
    let mut alloc = BumpFrameAllocator::new(&BIG);
    let mut shared = Vec::new();
    for _ in 0..MAX_SHARED_FRAMES {
        let f = alloc.allocate().unwrap();
        alloc.retain(f.base());
        shared.push(f);
    }
    let leaked = alloc.allocate().unwrap();
    alloc.retain(leaked.base());
    assert_eq!(alloc.shared_frame_count(), MAX_SHARED_FRAMES);
    assert_eq!(
        alloc.take_overflows(),
        vec![ReclaimOverflow {
            cause: RECLAIM_OVERFLOW_SHARED_TABLE_FULL,
            bound: MAX_SHARED_FRAMES as u64,
            frame: leaked.base(),
        }]
    );
    assert!(alloc.take_overflows().is_empty(), "it was read");
    alloc.release(leaked.base());
    alloc.release(leaked.base());
    assert_eq!(alloc.free_list_depth(), 0, "it may still be mapped somewhere");
    let plain = alloc.allocate().unwrap();
    alloc.release(plain.base());
    assert_eq!(alloc.allocate(), Some(plain));
    while let Some(f) = alloc.allocate() {
        assert_ne!(f, leaked);
    }
}

#[test]
fn two_objects_never_share_a_frame_or_a_name() {
    let mut table = MemoryTable::new();
    let mut alloc = BumpFrameAllocator::new(&MAP);
    let mut contents = FrameStore::new();
    let a = table
        .create(ObjectId(1), 2, Placement::default(), &mut contents, &mut alloc)
        .unwrap();
    let b = table
        .create(ObjectId(2), 2, Placement::default(), &mut contents, &mut alloc)
        .unwrap();
    assert_ne!(a, b);
    let mut of_a = [PhysFrame(0); 4];
    let mut of_b = [PhysFrame(0); 4];
    assert_eq!(table.frames_of(a, &mut of_a), 2);
    assert_eq!(table.frames_of(b, &mut of_b), 2);
    for frame in &of_a[..2] {
        assert!(!of_b[..2].contains(frame));
    }
    assert_eq!(table.add_holder(a, ObjectId(3)), Ok(()));
    assert!(table.remove_holder(a, ObjectId(3)));
    assert_eq!(table.owner_of(a), Some(ObjectId(1)));
}

#[test]
fn sizes_out_of_range_are_refused() {
    let mut table = MemoryTable::new();
    let mut alloc = BumpFrameAllocator::new(&MAP);
    let mut contents = FrameStore::new();
    for pages in [0usize, 257] {
        assert_eq!(
            table.create(ObjectId(1), pages, Placement::default(), &mut contents, &mut alloc),
            Err(KError::InvalidMapping)
        );
        assert_eq!(
            table.create_paged(ObjectId(1), pages, ObjectId(2)),
            Err(KError::InvalidMapping)
        );
    }
    assert!(
        table
            .create(ObjectId(1), 13, Placement::default(), &mut contents, &mut alloc)
            .is_err(),
        "there are twelve frames"
    );
    assert_eq!(table.objects_in_use(), 0);
    assert_eq!(alloc.free_list_depth(), 12, "what was drawn went back");
}

#[test]
fn a_placement_is_checked_against_the_frames() {
    let run = [Some(frame(0x2000)), Some(frame(0x3000))];
    let gap = [Some(frame(0x2000)), Some(frame(0x4000))];
    let contiguous = Placement {
        physically_contiguous: true,
        ..Placement::default()
    };
    assert_eq!(contiguous.satisfied_by(&run), Ok(()));
    assert!(contiguous.satisfied_by(&gap).is_err());
    let aligned = Placement {
        alignment: 0x2000,
        ..Placement::default()
    };
    assert_eq!(aligned.satisfied_by(&run), Ok(()));
    assert!(aligned.satisfied_by(&[Some(frame(0x3000))]).is_err());
    let low = Placement {
        address_limit: 0x2fff,
        ..Placement::default()
    };
    assert!(low.satisfied_by(&run).is_err());
    assert_eq!(low.satisfied_by(&[Some(frame(0x2000))]), Ok(()));
}

#[test]
fn a_class_only_strengthens_and_gates_attachment() {
    let mut table = MemoryTable::new();
    let object = table.create_paged(ObjectId(1), 1, ObjectId(2)).unwrap();
    assert_eq!(table.class_of(object), Some(MemoryClass::Unclassified));
    assert_eq!(table.classify(object, MemoryClass::Protected), Ok(()));
    assert_eq!(
        table.classify(object, MemoryClass::Unclassified),
        Err(KError::AccessDenied)
    );
    assert_eq!(
        table.classify(ObjectId(7), MemoryClass::Protected),
        Err(KError::WrongType)
    );
    assert!(attach_permitted(MemoryClass::Unclassified, Rights::none()));
    assert!(!attach_permitted(MemoryClass::Protected, Rights::none()));
    assert!(attach_permitted(
        MemoryClass::Protected,
        Rights::from_bits(Rights::PROTECTED_DMA)
    ));
}

#[test]
fn an_object_is_destroyed_when_its_last_holder_leaves() {
    let mut exec = Executive::new(4, 0);
    let mut alloc = BumpFrameAllocator::new(&MAP);
    let mut contents = FrameStore::new();
    let one = ObjectId(20);
    let two = ObjectId(21);
    let shared = exec
        .memory_create(one, 1, Placement::default(), &mut contents, &mut alloc)
        .unwrap();
    let own = exec
        .memory_create(one, 2, Placement::default(), &mut contents, &mut alloc)
        .unwrap();
    exec.machine.memory.add_holder(shared, two).unwrap();
    let mut iommu = NoDma;
    assert_eq!(exec.release_memory_of(one, &mut alloc, &mut iommu), 1);
    assert_eq!(exec.memory_pages_of(own), None);
    assert_eq!(exec.memory_owner_of(shared), Some(two));
    assert_eq!(exec.release_memory_of(two, &mut alloc, &mut iommu), 1);
    assert_eq!(exec.memory_pages_of(shared), None);
    assert_eq!(alloc.free_list_depth(), 3);
}

#[test]
fn holders_are_bounded() {
    let mut table = MemoryTable::new();
    let object = table.create_paged(ObjectId(1), 1, ObjectId(2)).unwrap();
    for i in 1..MAX_HOLDERS as u32 {
        assert_eq!(table.add_holder(object, ObjectId(10 + i)), Ok(()));
    }
    assert!(table.add_holder(object, ObjectId(99)).is_err());
    assert_eq!(table.add_holder(object, ObjectId(1)), Ok(()), "it holds it already");
    assert_eq!(table.holder_count(object), Some(MAX_HOLDERS));
    assert!(table.remove_holder(object, ObjectId(1)));
    assert!(!table.is_held_by(object, ObjectId(1)));
}

#[test]
fn a_reachable_object_keeps_its_frames_until_the_device_lets_go() {
    let mut exec = Executive::new(4, 0);
    let mut alloc = BumpFrameAllocator::new(&MAP);
    let mut contents = FrameStore::new();
    let object = exec
        .memory_create(ObjectId(1), 1, Placement::default(), &mut contents, &mut alloc)
        .unwrap();
    let attachment = Attachment {
        device: ObjectId(50),
        address: 0x8000,
        len: 4096,
        scoped: true,
    };
    assert_eq!(exec.memory_attach(object, attachment), Ok(()));
    assert_eq!(
        exec.memory_attach(object, attachment),
        Err(KError::AlreadyMapped)
    );
    // No unit to ask: the record stays, and so do the frames.
    let mut nothing = NoDma;
    assert_eq!(exec.detach_memory(object, &mut nothing), None);
    assert_eq!(exec.memory_destroy(object, &mut alloc, &mut nothing), 0);
    assert_eq!(exec.memory_pages_of(object), Some(1));
    let mut unit = DmaQueue::new();
    assert_eq!(exec.memory_destroy(object, &mut alloc, &mut unit), 1);
    assert_eq!(
        unit.pending(),
        &[DmaOp::Unmap {
            device: ObjectId(50),
            address: 0x8000,
            len: 4096,
            ok: true,
        }]
    );
    assert_eq!(exec.memory_pages_of(object), None);
}

#[test]
fn the_cache_holds_pages_until_they_are_clean() {
    let mut exec = Executive::new(4, 0);
    let object = exec.memory_create_paged(ObjectId(1), 2, ObjectId(9)).unwrap();
    assert_eq!(exec.memory_pager_of(object), Some(ObjectId(9)));
    assert_eq!(exec.memory_supply(object, 1, frame(0x5000)), Ok(()));
    assert_eq!(
        exec.memory_supply(object, 2, frame(0x6000)),
        Err(KError::InvalidArgument)
    );
    assert_eq!(
        exec.memory_supply(object, 1, frame(0x6000)),
        Err(KError::AlreadyMapped)
    );
    assert_eq!(exec.memory_frame_at(object, 1), Some(frame(0x5000)));
    assert_eq!(exec.memory_resident_pages(object), 1);
    assert_eq!(exec.memory_mark_dirty(object, 4096), DirtyOutcome::Marked);
    assert_eq!(exec.memory_evict(object, 4096), None);
    assert_eq!(exec.cache_evictable(), None);
    assert_eq!(exec.cache_dirty_anywhere(), Some((object, 4096)));
    exec.memory_mark_clean(object, 4096);
    assert_eq!(exec.cache_evictable(), Some((object, 4096)));
    assert_eq!(exec.memory_evict(object, 4096), Some(frame(0x5000)));
    assert_eq!(exec.memory_resident_pages(object), 0);
}

#[test]
fn the_cache_budget_leaves_the_write_back_its_share() {
    let mut exec = Executive::new(4, 0);
    for _ in 0..6 {
        assert!(exec.cache_take().is_some());
    }
    assert!(exec.cache_at_pressure());
    assert!(exec.cache_take().is_none());
    exec.cache_give_back();
    assert!(!exec.cache_at_pressure());
}

#[test]
fn a_page_the_cache_cannot_take_is_not_recorded() {
    let mut table = MemoryTable::new();
    let object = table.create_paged(ObjectId(1), 2, ObjectId(9)).unwrap();
    table.set_faulted(object);
    assert_eq!(table.frame_at(object, 0), None);
    let other = table.create_paged(ObjectId(1), 64, ObjectId(9)).unwrap();
    let mut refused = None;
    for page in 0..64usize {
        let frame = frame(0x20_0000 + 0x1000 * page as u64);
        if table.supply(other, page, frame).is_err() {
            refused = Some(page);
            break;
        }
        assert_eq!(table.frame_at(other, page), Some(frame));
    }
    if let Some(page) = refused {
        assert_eq!(table.frame_at(other, page), None, "slot and cache agree");
    }
}

#[test]
fn a_port_clears_every_frame_of_a_new_object() {
    let cleared = RefCell::new(Vec::new());
    let mut table = MemoryTable::new();
    let mut alloc = BumpFrameAllocator::new(&MAP);
    let mut contents = PortFrames::new(|base| cleared.borrow_mut().push(base));
    let object = table
        .create(ObjectId(1), 2, Placement::default(), &mut contents, &mut alloc)
        .unwrap();
    let frames: Vec<u64> = (0..2)
        .map(|page| table.frame_at(object, page).unwrap().base())
        .collect();
    assert_eq!(*cleared.borrow(), frames);
}

#[test]
fn a_run_of_frames_is_drawn_until_it_is_found() {
    // Four frames, a hole, then eight.
    let mut alloc = BumpFrameAllocator::new(&MAP);
    assert_eq!(alloc.alloc_contiguous(0), None);
    assert_eq!(alloc.handed_out(), 0, "no frames at all asks for nothing");
    assert_eq!(alloc.alloc_contiguous(3), Some(0x1000));
    assert_eq!(alloc.handed_out(), 3);
    // The one left before the hole is drawn and not given back.
    assert_eq!(alloc.alloc_contiguous(5), Some(0x10_0000));
    assert_eq!(alloc.handed_out(), 9);
    assert_eq!(alloc.free_list_depth(), 0);
    assert_eq!(alloc.alloc_contiguous(4), None, "three are left");
    assert_eq!(alloc.handed_out(), 12);
    assert_eq!(alloc.allocate(), None);
    // A freed frame comes first and breaks a run.
    alloc.release(0x2000);
    assert_eq!(alloc.alloc_contiguous(1), Some(0x2000));
}

#[test]
fn an_object_a_device_can_reach_says_why_it_stays() {
    let mut table = MemoryTable::new();
    let mut alloc = BumpFrameAllocator::new(&MAP);
    let mut contents = FrameStore::new();
    let object = table
        .create(ObjectId(1), 1, Placement::default(), &mut contents, &mut alloc)
        .unwrap();
    assert_eq!(table.refused_destroy(object), None);
    table
        .attach(
            object,
            Attachment {
                device: ObjectId(50),
                address: 0x8000,
                len: 4096,
                scoped: true,
            },
        )
        .unwrap();
    assert_eq!(table.destroy(object, &mut alloc), 0);
    assert_eq!(
        table.refused_destroy(object),
        Some(DestroyRefused {
            cause: RECLAIM_REFUSED_STILL_ATTACHED,
            object,
            device: ObjectId(50),
            address: 0x8000,
        })
    );
}

#[test]
fn a_frame_that_no_list_holds_leaks_on_record() {
    const WIDE: [MemoryRegion; 1] = [MemoryRegion {
        base: 0x1000,
        len: 514 * 4096,
        kind: MemoryKind::Usable,
    }];
    let mut alloc = BumpFrameAllocator::new(&WIDE);
    let frames: Vec<u64> = (0..514).map(|_| alloc.allocate().unwrap().base()).collect();
    for base in &frames {
        alloc.release(*base);
    }
    assert_eq!(alloc.free_list_depth(), MAX_FREE_FRAMES);
    let leaks: Vec<ReclaimOverflow> = frames[512..]
        .iter()
        .map(|base| ReclaimOverflow {
            cause: RECLAIM_OVERFLOW_FREE_LIST_FULL,
            bound: 512,
            frame: *base,
        })
        .collect();
    assert_eq!(alloc.take_overflows(), leaks);
    // The list still holds the frame that was released last before it was full.
    assert_eq!(alloc.allocate().unwrap().base(), frames[511]);
}
