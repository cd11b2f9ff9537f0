//! Rights, objects, and the accounting that joins them to handles.
use kcore::error::KError;
use kcore::handle::{HandleTable, MAX_HANDLES};
use kcore::object::{ObjectId, ObjectTable, ObjectType, MAX_OBJECTS};
use kcore::rights::Rights;

fn rights(bits: u64) -> Rights {
    Rights::from_bits(bits)
}

#[test]
fn subset_and_union_follow_the_bits() {
    let rw = rights(Rights::READ | Rights::WRITE);
    let r = rights(Rights::READ);
    assert!(rw.contains(r));
    assert!(!r.contains(rw));
    assert!(r.is_subset_of(rw));
    assert!(!rw.is_subset_of(r));
    assert_eq!(r.union(rights(Rights::WRITE)), rw);
    assert_eq!(rw.intersection(r), r);
    assert_eq!((r | rights(Rights::WRITE)).bits(), 3);
    assert_eq!((rw & r).bits(), 1);
    assert!(Rights::none().is_empty());
    assert!(Rights::none().is_subset_of(r));
    assert_eq!(Rights::PROTECTED_DMA, 1 << 39);
    assert_eq!(Rights::CREATE_PROCESS, 0x1_0000);
}

#[test]
fn a_reused_slot_does_not_answer_to_its_old_name() {
    let mut objects = ObjectTable::new();
    let first = objects.create(ObjectType::Channel).unwrap();
    assert_eq!(objects.object_type(first), Some(ObjectType::Channel));
    assert_eq!(objects.retain(first), Ok(()));
    assert_eq!(objects.refcount(first), Some(2));
    assert_eq!(objects.release(first), Ok(false));
    assert_eq!(objects.release(first), Ok(true));
    assert_eq!(objects.release(first), Err(KError::BadHandle));
    assert_eq!(objects.retain(first), Err(KError::BadHandle));
    let second = objects.create(ObjectType::Port).unwrap();
    assert_ne!(first, second);
    assert!(!objects.is_live(first));
    assert!(objects.is_live(second));
    assert_eq!(objects.live_count(), 1);
}

#[test]
fn a_full_object_table_refuses() {
    let mut objects = ObjectTable::new();
    for _ in 0..MAX_OBJECTS {
        objects.create(ObjectType::Test).unwrap();
    }
    assert_eq!(objects.create(ObjectType::Test), Err(KError::OutOfMemory));
    assert_eq!(objects.live_count(), MAX_OBJECTS);
}

#[test]
fn a_full_handle_table_takes_no_reference() {
    let mut objects = ObjectTable::new();
    let mut handles = HandleTable::new();
    let id = objects.create(ObjectType::Test).unwrap();
    let first = handles.insert(id, rights(Rights::READ)).unwrap();
    for _ in 1..MAX_HANDLES {
        handles.duplicate(&mut objects, first, rights(Rights::READ)).unwrap();
    }
    assert_eq!(objects.refcount(id), Some(MAX_HANDLES));
    assert_eq!(
        handles.duplicate(&mut objects, first, rights(Rights::READ)),
        Err(KError::OutOfMemory)
    );
    assert_eq!(objects.refcount(id), Some(MAX_HANDLES));
    assert_eq!(handles.count(), MAX_HANDLES);
}

#[test]
fn reclaim_takes_every_handle_to_a_wanted_object_and_lists_it_once() {
    let mut handles = HandleTable::new();
    let a = ObjectId(10);
    let b = ObjectId(11);
    let c = ObjectId(12);
    let ha = handles.insert(a, rights(Rights::READ)).unwrap();
    handles.insert(b, rights(Rights::WRITE)).unwrap();
    handles.insert(a, rights(Rights::MAP)).unwrap();
    let hc = handles.insert(c, rights(Rights::READ)).unwrap();
    let taken = handles.reclaim(&vec![a, b], 8);
    assert_eq!(taken, vec![(a, rights(Rights::READ)), (b, rights(Rights::WRITE))]);
    assert!(!handles.holds(a));
    assert!(!handles.holds(b));
    assert!(handles.holds(c));
    assert_eq!(handles.rights(ha), Err(KError::BadHandle));
    assert_eq!(handles.object(hc), Ok(c));
}

#[test]
fn reclaim_takes_nothing_it_cannot_list() {
    let mut handles = HandleTable::new();
    handles.insert(ObjectId(1), rights(Rights::READ)).unwrap();
    handles.insert(ObjectId(2), rights(Rights::READ)).unwrap();
    let taken = handles.reclaim(&vec![ObjectId(1), ObjectId(2)], 1);
    assert_eq!(taken, vec![(ObjectId(1), rights(Rights::READ))]);
    assert!(!handles.holds(ObjectId(1)));
    assert!(handles.holds(ObjectId(2)));
}
