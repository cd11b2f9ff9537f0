//! Jobs: containment, limits, and killing a subtree innermost first.
use kcore::error::KError;
use kcore::exec::Executive;
use kcore::job::{JobId, JobLimits, JobTable, Member, MAX_CHILDREN_PER_JOB};
use kcore::object::ObjectId;
use kcore::rights::Rights;
use kcore::thread::{Thread, ThreadId, ThreadState};

fn all() -> Rights {
    Rights::from_bits(Rights::CREATE_JOB | Rights::CREATE_PROCESS | Rights::KILL)
}

fn thread(id: u64) -> Thread {
    Thread {
        id: ThreadId(id),
        state: ThreadState::Blocked,
        priority: 1,
        correlation: 0,
        process: None,
        recv_deadline: None,
        kernel_stack_base: 0,
        kernel_stack_top: 0,
        space_root: None,
    }
}

#[test]
fn a_child_cannot_loosen_its_parents_limits() {
    let mut jobs = JobTable::new();
    let root = jobs.create_root(ObjectId(1), JobLimits::new(4)).unwrap();
    assert_eq!(
        jobs.create_child(root, ObjectId(2), JobLimits::new(5), all()),
        Err(KError::LimitExceeded)
    );
    assert_eq!(
        jobs.create_child(root, ObjectId(2), JobLimits::new(4), Rights::none()),
        Err(KError::AccessDenied)
    );
    let child = jobs
        .create_child(root, ObjectId(2), JobLimits::new(2), all())
        .unwrap();
    assert_eq!(jobs.job(child).unwrap().parent(), Some(root));
    assert_eq!(jobs.job(child).unwrap().limits().max_processes, 2);
    for i in 0..2 {
        let member = Member {
            process: ObjectId(10 + i),
            thread: ThreadId(100 + u64::from(i)),
        };
        assert_eq!(jobs.add_process(child, member, all()), Ok(()));
    }
    let third = Member {
        process: ObjectId(12),
        thread: ThreadId(102),
    };
    assert_eq!(jobs.add_process(child, third, all()), Err(KError::LimitExceeded));
    assert_eq!(jobs.job(child).unwrap().member_count(), 2);
}

#[test]
fn a_subtree_dies_innermost_first_and_only_once() {
    let mut jobs = JobTable::new();
    let root = jobs.create_root(ObjectId(1), JobLimits::new(8)).unwrap();
    let a = jobs.create_child(root, ObjectId(2), JobLimits::new(8), all()).unwrap();
    let b = jobs.create_child(root, ObjectId(3), JobLimits::new(8), all()).unwrap();
    let aa = jobs.create_child(a, ObjectId(4), JobLimits::new(8), all()).unwrap();
    let mut order: [Option<JobId>; 16] = [None; 16];
    assert_eq!(
        jobs.kill_order(root, Rights::none(), &mut order),
        Err(KError::AccessDenied)
    );
    let n = jobs.kill_order(root, all(), &mut order).unwrap();
    assert_eq!(&order[..n], &[Some(aa), Some(a), Some(b), Some(root)]);
    assert!(jobs.job(aa).unwrap().is_killed());
    assert!(jobs.job(root).unwrap().is_killed());
    assert_eq!(
        jobs.kill_order(JobId(15), all(), &mut order),
        Err(KError::BadHandle)
    );
}

#[test]
fn a_job_has_room_for_so_many_children() {
    let mut jobs = JobTable::new();
    let root = jobs.create_root(ObjectId(1), JobLimits::new(1)).unwrap();
    for i in 0..MAX_CHILDREN_PER_JOB as u32 {
        jobs.create_child(root, ObjectId(2 + i), JobLimits::new(1), all()).unwrap();
    }
    assert_eq!(
        jobs.create_child(root, ObjectId(99), JobLimits::new(1), all()),
        Err(KError::OutOfMemory)
    );
}

#[test]
fn killing_a_job_ends_its_threads_and_reports_its_processes() {
    let mut exec = Executive::new(4, 0);
    let root = exec.job_create_root(ObjectId(1), JobLimits::new(8)).unwrap();
    let child = exec
        .job_create_child(root, ObjectId(2), JobLimits::new(8), all())
        .unwrap();
    let t = exec.add_thread(0, thread(5), 0).unwrap();
    exec.job_add_process(
        child,
        Member {
            process: ObjectId(40),
            thread: ThreadId(5),
        },
        all(),
    )
    .unwrap();
    let mut killed: [Option<ObjectId>; 4] = [None; 4];
    let n = exec.job_kill(0, root, all(), &mut killed).unwrap();
    assert_eq!(n, 1);
    assert_eq!(killed[0], Some(ObjectId(40)));
    assert_eq!(exec.scheduler(0).thread_state(t), Some(ThreadState::Exited));
    assert!(exec.job(root).unwrap().is_killed());
}

#[test]
fn killing_a_job_ends_its_threads_on_every_cpu() {
    let mut exec = Executive::new(4, 0);
    let root = exec.job_create_root(ObjectId(1), JobLimits::new(8)).unwrap();
    let far = (3u64 << 56) | 5;
    let here = exec.add_thread(0, thread(6), 0).unwrap();
    let there = exec.add_thread(3, thread(far), 0).unwrap();
    let bystander = exec.add_thread(3, thread(far + 1), 0).unwrap();
    for (process, id) in [(40, 6), (41, far)] {
        let member = Member {
            process: ObjectId(process),
            thread: ThreadId(id),
        };
        exec.job_add_process(root, member, all()).unwrap();
    }
    let mut killed: [Option<ObjectId>; 4] = [None; 4];
    assert_eq!(exec.job_kill(0, root, all(), &mut killed), Ok(2));
    assert_eq!(exec.scheduler(0).thread_state(here), Some(ThreadState::Exited));
    assert_eq!(exec.scheduler(3).thread_state(there), Some(ThreadState::Exited));
    assert_eq!(exec.scheduler(3).thread_state(bystander), Some(ThreadState::Ready));
}
