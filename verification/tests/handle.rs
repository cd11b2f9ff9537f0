//! Handles: what they name, what they may do, and what they count.
use kcore::error::KError;
use kcore::handle::{Handle, HandleTable};
use kcore::object::{ObjectId, ObjectTable, ObjectType};
use kcore::rights::Rights;

fn rights(bits: u64) -> Rights {
    Rights::from_bits(bits)
}

/// Creates an object and a first handle adopting its creation reference.
fn new_object_handle(
    objects: &mut ObjectTable,
    handles: &mut HandleTable,
    granted: Rights,
) -> (ObjectId, Handle) {
    let id = objects.create(ObjectType::Test).unwrap();
    let handle = handles.insert(id, granted).unwrap();
    (id, handle)
}

#[test]
fn insert_lookup_and_query_rights() {
    let mut objects = ObjectTable::new();
    let mut handles = HandleTable::new();
    let granted = rights(Rights::READ | Rights::WRITE | Rights::DUPLICATE);
    let (id, handle) = new_object_handle(&mut objects, &mut handles, granted);
    assert_eq!(handles.object(handle), Ok(id));
    assert_eq!(handles.rights(handle), Ok(granted));
    assert_eq!(handles.scope(handle), Ok(None)); // unscoped by default
    assert_eq!(objects.refcount(id), Some(1)); // the handle holds the one reference
}

#[test]
fn duplicate_narrows_and_rejects_expansion() {
    let mut objects = ObjectTable::new();
    let mut handles = HandleTable::new();
    let full = rights(Rights::READ | Rights::WRITE | Rights::DUPLICATE);
    let (id, handle) = new_object_handle(&mut objects, &mut handles, full);

    // Narrowing to a subset is allowed and adds a reference.
    let ro = handles
        .duplicate(&mut objects, handle, rights(Rights::READ))
        .unwrap();
    assert_eq!(handles.rights(ro), Ok(rights(Rights::READ)));
    assert_eq!(objects.refcount(id), Some(2));

    // Asking for a right the source lacks is an expansion — rejected, with
    // no new reference taken.
    let expand = rights(Rights::READ | Rights::EXECUTE);
    assert_eq!(
        handles.duplicate(&mut objects, ro, expand),
        Err(KError::AccessDenied)
    );
    assert_eq!(objects.refcount(id), Some(2));
}

#[test]
fn replace_rights_only_narrows() {
    let mut objects = ObjectTable::new();
    let mut handles = HandleTable::new();
    let (_, handle) =
        new_object_handle(&mut objects, &mut handles, rights(Rights::READ | Rights::WRITE));
    handles.replace_rights(handle, rights(Rights::READ)).unwrap();
    assert_eq!(handles.rights(handle), Ok(rights(Rights::READ)));
    // Cannot re-add WRITE.
    assert_eq!(
        handles.replace_rights(handle, rights(Rights::READ | Rights::WRITE)),
        Err(KError::AccessDenied)
    );
}

#[test]
fn object_lives_until_last_handle_closes() {
    let mut objects = ObjectTable::new();
    let mut handles = HandleTable::new();
    let (id, h1) = new_object_handle(&mut objects, &mut handles, Rights::all_core());
    let h2 = handles.duplicate(&mut objects, h1, rights(Rights::READ)).unwrap();
    assert_eq!(objects.refcount(id), Some(2));

    assert_eq!(handles.close(&mut objects, h1), Ok(false)); // one reference left
    assert!(objects.is_live(id));
    assert_eq!(handles.close(&mut objects, h2), Ok(true)); // destroyed at last close
    assert!(!objects.is_live(id));
    assert_eq!(handles.count(), 0);
}

#[test]
fn transfer_moves_a_handle_and_conserves_the_reference() {
    let mut objects = ObjectTable::new();
    // A source table (sender) and a destination table (receiver).
    let mut sender = HandleTable::new();
    let mut receiver = HandleTable::new();

    let id = objects.create(ObjectType::Test).unwrap();
    let handle = sender.insert(id, rights(Rights::READ | Rights::TRANSFER)).unwrap();
    assert_eq!(objects.refcount(id), Some(1));

    // Take from the sender (reference conserved — refcount unchanged).
    let (object, moved) = sender.take(handle).unwrap();
    assert_eq!(object, id);
    assert_eq!(objects.refcount(id), Some(1));
    assert_eq!(sender.rights(handle), Err(KError::BadHandle)); // gone from sender

    // Install into the receiver (reference adopted — still one reference).
    let installed = receiver.install(object, moved).unwrap();
    assert_eq!(objects.refcount(id), Some(1));
    assert_eq!(receiver.rights(installed), Ok(moved));
    assert!(objects.is_live(id));
}

#[test]
fn transfer_requires_the_transfer_right() {
    let mut objects = ObjectTable::new();
    let mut sender = HandleTable::new();
    let id = objects.create(ObjectType::Test).unwrap();
    // No TRANSFER right.
    let handle = sender.insert(id, rights(Rights::READ | Rights::WRITE)).unwrap();
    assert_eq!(sender.take(handle), Err(KError::AccessDenied));
    // The handle is untouched by the failed take.
    assert!(sender.rights(handle).is_ok());
}

#[test]
fn stale_and_absent_handles_are_rejected() {
    let mut objects = ObjectTable::new();
    let mut handles = HandleTable::new();
    let (_, handle) = new_object_handle(&mut objects, &mut handles, rights(Rights::READ));
    handles.close(&mut objects, handle).unwrap();
    // The closed handle is stale.
    assert_eq!(handles.rights(handle), Err(KError::BadHandle));
    assert_eq!(
        handles.duplicate(&mut objects, handle, rights(Rights::READ)),
        Err(KError::BadHandle)
    );
}

#[test]
fn a_refused_duplicate_changes_no_count_and_no_handle() {
    let mut objects = ObjectTable::new();
    let mut handles = HandleTable::new();
    let id = objects.create(ObjectType::Test).unwrap();
    let first = handles.insert(id, rights(Rights::READ)).unwrap();
    let mut last = first;
    while let Ok(h) = handles.duplicate(&mut objects, first, rights(Rights::READ)) {
        last = h;
    }
    let before = (objects.refcount(id), handles.count());
    assert_eq!(
        handles.duplicate(&mut objects, first, rights(Rights::READ)),
        Err(KError::OutOfMemory)
    );
    assert_eq!(
        handles.duplicate(&mut objects, first, rights(Rights::WRITE)),
        Err(KError::AccessDenied)
    );
    assert_eq!((objects.refcount(id), handles.count()), before);
    assert_eq!(handles.lookup(last), Ok((id, rights(Rights::READ))));
}
