//! Fault repair and firmware admission.
use kcore::error::KError;
use kcore::fault::{repair, write_granted, FaultOutcome, Repair, RepairStep};
use kcore::firmware::{
    install_system_store, install_system_store_against, install_system_store_with, load, policy,
    record_refusal, set_system_store, stage_system_store, staged_store, system_store, Blob,
    FirmwareRecord, FirmwareRefusal, Image, LoadError, Mounted, Refusal, StoreError, SystemStore, MAX_DELIVERED_STORE, ROLLBACK_FLOOR,
};
use kcore::object::ObjectId;

const ANCHOR: u64 = 3;

fn blob() -> Blob {
    Blob {
        bytes: vec![1, 2, 3],
        svn: 4,
        image_version: 11,
        digest: [9; 32],
    }
}

#[test]
fn only_repaired_faults_resume() {
    let object = ObjectId(8);
    assert_eq!(repair(FaultOutcome::Filled), RepairStep::Done(Repair::Filled));
    assert_eq!(repair(FaultOutcome::Copied), RepairStep::Done(Repair::Copied));
    assert_eq!(
        repair(FaultOutcome::Unresolvable),
        RepairStep::Done(Repair::Fatal)
    );
    assert_eq!(
        repair(FaultOutcome::NeedsPageIn { object, offset: 4096 }),
        RepairStep::Done(Repair::NeedsPageIn { object, offset: 4096 })
    );
    assert_eq!(
        repair(FaultOutcome::WriteToClean { object, offset: 0 }),
        RepairStep::GrantWrite { object, offset: 0 }
    );
    assert!(write_granted(object, 0, Ok(())).resumes());
    assert_eq!(
        write_granted(object, 0, Err(KError::InvalidMapping)),
        Repair::Fatal
    );
    assert!(Repair::Filled.resumes());
    assert!(Repair::Copied.resumes());
    assert!(!Repair::NeedsPageIn { object, offset: 0 }.resumes());
    assert!(!Repair::Fatal.resumes());
}

#[test]
fn a_store_is_accepted_once_and_only_from_its_anchor() {
    let mut store = SystemStore::new();
    assert_eq!(stage_system_store(&mut store, &[]), Err(KError::InvalidArgument));
    assert_eq!(
        stage_system_store(&mut store, &vec![0; MAX_DELIVERED_STORE + 1]),
        Err(KError::InvalidArgument)
    );
    assert_eq!(stage_system_store(&mut store, &[1, 2, 3, 4]), Ok(()));
    assert_eq!(staged_store(&store), Some(&vec![1, 2, 3, 4]));
    let wrong = Mounted {
        anchor_id: 4,
        byte_len: 3,
    };
    assert_eq!(
        install_system_store(&mut store, Some(wrong), ANCHOR),
        Err(KError::AccessDenied)
    );
    assert!(system_store(&store).is_empty());
    assert_eq!(stage_system_store(&mut store, &[1, 2, 3, 4]), Ok(()));
    assert_eq!(
        install_system_store(&mut store, None, ANCHOR),
        Err(KError::AccessDenied)
    );
    assert_eq!(stage_system_store(&mut store, &[1, 2, 3, 4]), Ok(()));
    let right = Mounted {
        anchor_id: ANCHOR,
        byte_len: 3,
    };
    assert_eq!(
        install_system_store_with(&mut store, Some(right), ANCHOR),
        Ok(3)
    );
    assert_eq!(system_store(&store), &[1, 2, 3], "without the padding");
    assert_eq!(
        stage_system_store(&mut store, &[5]),
        Err(KError::AlreadyMapped)
    );
    assert_eq!(
        install_system_store(&mut store, Some(right), ANCHOR),
        Err(KError::AccessDenied)
    );
    assert_eq!(system_store(&store), &[1, 2, 3]);
}

#[test]
fn a_store_taken_whole_keeps_its_length() {
    let mut store = SystemStore::new();
    set_system_store(&mut store, vec![7]);
    assert_eq!(system_store(&store), &[7]);
    stage_system_store(&mut store, &[1, 2]).unwrap();
    let mounted = Mounted {
        anchor_id: ANCHOR,
        byte_len: 2,
    };
    assert_eq!(install_system_store(&mut store, Some(mounted), ANCHOR), Ok(2));
    assert_eq!(system_store(&store), &[1, 2]);
}

#[test]
fn a_load_says_whether_the_store_or_policy_refused() {
    assert_eq!(policy().rollback_floor, ROLLBACK_FLOOR);
    assert_eq!(ROLLBACK_FLOOR, 5);
    let mut log = Vec::new();
    let missing = load(9, Err(StoreError(2)), Ok(()), &mut log).err().unwrap();
    assert_eq!(missing, LoadError::Store(StoreError(2)));
    assert!(log.is_empty());
    assert_eq!(missing.code(), KError::InvalidArgument);
    assert_eq!(missing.refusal(), FirmwareRefusal::NotRefused);
    assert_eq!(missing.image(), None);
    let old = load(9, Ok(blob()), Err(Refusal::RollbackBlocked), &mut log).err().unwrap();
    assert_eq!(old.code(), KError::PolicyRefused);
    assert_eq!(old.refusal(), FirmwareRefusal::RollbackBlocked);
    assert_eq!(
        old.image(),
        Some(Image {
            svn: 4,
            image_version: 11,
        })
    );
    let stale = load(9, Ok(blob()), Err(Refusal::VersionTooOld), &mut log).err().unwrap();
    assert_eq!(stale.refusal(), FirmwareRefusal::VersionTooOld);
    assert_eq!(LoadError::BadName.code(), KError::InvalidArgument);
    let admitted = load(9, Ok(blob()), Ok(()), &mut log).ok().unwrap();
    assert_eq!(admitted.bytes, vec![1, 2, 3]);
    assert_eq!((admitted.svn, admitted.image_version), (4, 11));
    assert_eq!(admitted.digest, [9; 32]);
    assert_eq!(
        log,
        vec![
            FirmwareRecord::Refused {
                device: 9,
                refusal: FirmwareRefusal::RollbackBlocked,
                error: KError::PolicyRefused,
                svn: 4,
            },
            FirmwareRecord::Refused {
                device: 9,
                refusal: FirmwareRefusal::VersionTooOld,
                error: KError::PolicyRefused,
                svn: 4,
            },
            FirmwareRecord::Loaded {
                device: 9,
                svn: 4,
                image_version: 11,
                lead: 0x0909_0909_0909_0909,
            },
        ]
    );
    assert_eq!(
        record_refusal(9, KError::AccessDenied),
        FirmwareRecord::Refused {
            device: 9,
            refusal: FirmwareRefusal::NotRefused,
            error: KError::AccessDenied,
            svn: 0,
        }
    );
}

#[test]
fn a_store_is_accepted_under_other_anchors_too() {
    let mut store = SystemStore::new();
    stage_system_store(&mut store, &[5, 6, 7]).unwrap();
    let mounted = Mounted {
        anchor_id: 44,
        byte_len: 3,
    };
    assert_eq!(install_system_store_against(&mut store, Some(mounted), 44), Ok(3));
    assert_eq!(system_store(&store), &[5, 6, 7]);
    assert_eq!(stage_system_store(&mut store, &[1]), Err(KError::AlreadyMapped));
}
