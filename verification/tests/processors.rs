//! What CPUs share and what each has for itself: the machine lock, occupancy,
//! preemption, joining, and the scaling benchmark.
use kcore::config::MAX_CPUS;
use kcore::exec::Executive;
use kcore::machine_lock::{
    assert_released, contended, held_here, hold, hold_again, let_go, owner, park, park_resume,
    parked_holding, report as lock_report, MachineLock,
};
use kcore::occupancy::{
    at_site, current, deepest, note_visit, note_visit_from, report as occupancy_report,
    report_sites, visitor_count, visitors, Inside, Occupancy, Site,
};
use kcore::percpu::{current_index, PerCpu};
use kcore::preempt::{
    deferred, finished, give_up, interleaved, observers, on_tick, report_secondary_preempted,
    spin_poll, spin_worker, taken, Preemption,
};
use kcore::scaling::{
    all_reported, begin_phase, client, client_end, client_report, complete, efficiency, end_phase,
    end_run, fault_loop, faults_for, frames_for, kind_of, open, owed, reply, report_shape, request,
    rounds_for, serve, workers, ClientTurn, Phase, PhaseKind, Scaling, ServeStep, Share,
    FAULT_BASE, FAULT_ROUNDS, MAX_WORKERS, ROUNDS,
};
use kcore::secondary::{
    dispatched_from_executive, exit_here, join, publish_switches, report_executive_run,
    run_this_cpu, Handoff, Published,
};
use kcore::thread::{Thread, ThreadId, ThreadState};

fn thread(id: u64) -> Thread {
    Thread {
        id: ThreadId(id),
        state: ThreadState::Blocked,
        priority: 1,
        correlation: 0,
        process: None,
        recv_deadline: None,
        kernel_stack_base: 0,
        kernel_stack_top: 0,
        space_root: None,
    }
}

#[test]
fn the_lock_nests_on_one_cpu_and_excludes_another() {
    let mut lock = MachineLock::new();
    let outer = hold(&mut lock, 2).unwrap();
    let inner = hold(&mut lock, 2).unwrap();
    assert_eq!(owner(&lock), Some(2));
    assert!(hold(&mut lock, 3).is_none());
    assert!(hold_again(&mut lock, 3).is_none());
    assert_eq!(contended(&lock), 1, "one wait, however many attempts");
    let_go(&mut lock, inner);
    assert!(held_here(&lock, 2));
    let_go(&mut lock, outer);
    assert_eq!(owner(&lock), None);
    assert!(hold_again(&mut lock, 3).is_some());
}

#[test]
fn a_park_puts_every_level_down() {
    let mut lock = MachineLock::new();
    let a = hold(&mut lock, 0).unwrap();
    let b = hold(&mut lock, 0).unwrap();
    assert_released(&mut lock, 0);
    assert_eq!(parked_holding(&lock), 1);
    assert_eq!(lock_report(&lock), None);
    let depth = park(&mut lock, 0);
    assert_eq!(depth, 2);
    assert!(!held_here(&lock, 0));
    let other = hold(&mut lock, 1).unwrap();
    assert!(!park_resume(&mut lock, 0, depth), "somebody has it");
    let_go(&mut lock, other);
    assert!(park_resume(&mut lock, 0, depth));
    let_go(&mut lock, a);
    assert!(held_here(&lock, 0));
    let_go(&mut lock, b);
    assert!(!held_here(&lock, 0));
    assert_eq!(
        lock_report(&MachineLock::new()),
        Some("exec.lock-released-at-park")
    );
}

#[test]
fn occupancy_counts_who_is_inside_and_where() {
    let mut o = Occupancy::new();
    let a = Inside::enter(&mut o, 0, Site::Receive);
    let b = Inside::enter(&mut o, 0, Site::Call);
    let c = Inside::enter(&mut o, 1, Site::Receive);
    assert_eq!(current(&o), 3);
    assert_eq!(deepest(&o), 2);
    assert_eq!(at_site(&o, Site::Receive), 2);
    assert_eq!(report_sites(&o), vec![("receive", 2), ("call", 1)]);
    a.leave(&mut o);
    b.leave(&mut o);
    c.leave(&mut o);
    assert_eq!(current(&o), 0);
    assert_eq!(deepest(&o), 2, "the mark stays");
    assert!(report_sites(&o).is_empty());
    note_visit(&mut o, 0);
    assert_eq!(occupancy_report(&o), None);
    note_visit_from(&mut o, 3);
    note_visit_from(&mut o, 3);
    note_visit_from(&mut o, 99);
    assert_eq!(visitors(&o), 0b1001);
    assert_eq!(visitor_count(&o), 2);
    assert_eq!(occupancy_report(&o), Some("exec.multi-cpu"));
}

#[test]
fn per_cpu_slots_end_at_the_ceiling() {
    let mut p = PerCpu::new(7u32);
    assert_eq!(PerCpu::<u32>::capacity() as usize, MAX_CPUS);
    *p.with_mut(2).unwrap() = 9;
    assert_eq!(p.get(2), Some(&9));
    assert_eq!(p.get(3), Some(&7));
    assert_eq!(p.get(MAX_CPUS as u32), None);
    assert!(p.with_mut(MAX_CPUS as u32).is_none());
    assert_eq!(p.iter().iter().sum::<u32>(), 7 * 7 + 9);
    assert_eq!(current_index(None), 0);
    assert_eq!(current_index(Some(4)), 4);
}

#[test]
fn a_tick_is_deferred_while_the_cpu_holds_something() {
    let mut p = Preemption::new();
    let mut lock = MachineLock::new();
    assert!(on_tick(&mut p, &lock, 1, false));
    assert!(!on_tick(&mut p, &lock, 1, true));
    let held = hold(&mut lock, 1).unwrap();
    assert!(!on_tick(&mut p, &lock, 1, false));
    assert!(on_tick(&mut p, &lock, 2, false), "another CPU's hold is its own");
    let_go(&mut lock, held);
    assert_eq!((taken(&p), deferred(&p)), (2, 2));
}

#[test]
fn the_preemption_check_needs_both_workers() {
    let mut p = Preemption::new();
    spin_worker(&mut p, 0);
    assert!(!spin_poll(&mut p, 0), "nobody else runs yet");
    spin_worker(&mut p, 1);
    assert!(spin_poll(&mut p, 1));
    assert!(!interleaved(&p));
    assert!(spin_poll(&mut p, 0));
    assert!(interleaved(&p));
    assert_eq!((observers(&p), finished(&p)), (2, 2));
    assert_eq!(report_secondary_preempted(&p, false), None);
    assert_eq!(
        report_secondary_preempted(&p, true),
        Some("smp.secondary-preempted")
    );
    let mut alone = Preemption::new();
    spin_worker(&mut alone, 0);
    give_up(&mut alone);
    assert!(spin_poll(&mut alone, 0));
    assert!(!interleaved(&alone));
    assert_eq!(report_secondary_preempted(&alone, true), None);
}

#[test]
fn a_second_cpu_runs_what_it_is_handed_out_of_its_own_half() {
    let mut exec = Executive::new(4, 0);
    let mut published = Published::new();
    let mut handoff = Handoff::new();
    assert!(exit_here(&mut exec, &published, 1).is_none());
    join(&mut exec, &mut published, 1, 2);
    assert_eq!(visitors(&exec.occupancy), 2);
    let far = (1u64 << 56) | 7;
    assert!(handoff.give(1, thread(far)));
    assert!(!handoff.give(8, thread(1)));
    let switch = run_this_cpu(&mut exec, &mut handoff, &mut published, 1, 40).unwrap();
    assert_eq!(switch.trace.thread_id, far);
    assert_eq!(switch.trace.correlation, 40);
    assert!(handoff.take(1).is_none(), "it was taken");
    assert_eq!(exec.scheduler(0).current(), None, "the boot CPU is untouched");
    let left = exit_here(&mut exec, &published, 1).unwrap();
    assert_eq!(left.to, None);
    assert!(run_this_cpu(&mut exec, &mut handoff, &mut published, 1, 0).is_none());
    publish_switches(&exec, &mut published, 1);
    let run = dispatched_from_executive(&published);
    assert_eq!((run.cpus, run.matched, run.switches), (1, 1, 2));
    assert_eq!(report_executive_run(run), Some("exec.second-cpu-scheduled"));
    assert_eq!(
        report_executive_run(dispatched_from_executive(&Published::new())),
        None
    );
}

#[test]
fn workers_share_the_phases_out() {
    let mut s = Scaling::new();
    let mut exec = Executive::new(4, 0);
    assert!(!open(&mut s, &mut exec, 0));
    assert!(open(&mut s, &mut exec, 3));
    assert_eq!(workers(&s), 3);
    assert_eq!(rounds_for(&s, 0), 3 * ROUNDS);
    assert_eq!(rounds_for(&s, 2), ROUNDS);
    assert_eq!(rounds_for(&s, 3), 0);
    assert_eq!(faults_for(&s, 1), 2 * FAULT_ROUNDS);
    assert_eq!(frames_for(&s, 0), 3 * FAULT_ROUNDS + 16);
    assert_eq!(kind_of(&s, 2), PhaseKind::Ipc);
    assert_eq!(kind_of(&s, 3), PhaseKind::Fault);
    assert_eq!(client(&s, 0, 0), ClientTurn::Wait);
    assert_eq!(begin_phase(&mut s, 1), 2);
    assert_eq!(client(&s, 1, 1), ClientTurn::Work(PhaseKind::Ipc));
    assert_eq!(client(&s, 2, 1), ClientTurn::SitOut);
    assert_eq!(begin_phase(&mut s, 3), 1);
    assert!(client_end(&s, 2).is_some());
    assert!(client_end(&s, 3).is_none());
    assert_eq!(request().inline(), b"go");
    assert!(reply().inline().is_empty());
    assert_eq!(fault_loop(1, 0), Some(FAULT_BASE + 64 * 4096));
    assert_eq!(fault_loop(1, FAULT_ROUNDS), None);
    let mut many = Scaling::new();
    assert!(open(&mut many, &mut exec, 99));
    assert_eq!(workers(&many), MAX_WORKERS);
}

#[test]
fn a_server_answers_each_call_once() {
    let mut s = Scaling::new();
    let mut exec = Executive::new(4, 0);
    assert!(matches!(serve(&s, 0, 0), ServeStep::Stop));
    open(&mut s, &mut exec, 1);
    assert!(matches!(serve(&s, 0, 0), ServeStep::Receive(_)));
    assert!(matches!(serve(&s, 0, 1), ServeStep::ReplyReceive(_, _)));
    assert!(matches!(serve(&s, 0, ROUNDS), ServeStep::ReplyReceive(_, _)));
    assert!(matches!(serve(&s, 0, ROUNDS + 1), ServeStep::ReplyAndContinue(_, _)));
    assert!(matches!(serve(&s, 0, ROUNDS + 2), ServeStep::Stop));
}

#[test]
fn a_run_is_complete_when_nothing_is_owed() {
    let mut s = Scaling::new();
    let mut exec = Executive::new(4, 0);
    open(&mut s, &mut exec, 1);
    assert_eq!(owed(&s), (ROUNDS + FAULT_ROUNDS) as u64);
    begin_phase(&mut s, 0);
    assert!(!all_reported(&s));
    client_report(
        &mut s,
        0,
        Some(Share {
            started: 100,
            ended: 350,
            done: ROUNDS as u64,
        }),
    );
    assert!(all_reported(&s));
    let ipc = end_phase(&mut s, 0, 5, 9);
    assert_eq!(
        ipc,
        Phase {
            active: 1,
            kind: PhaseKind::Ipc,
            window: 250,
            contended: 4,
        }
    );
    begin_phase(&mut s, 1);
    client_report(
        &mut s,
        0,
        Some(Share {
            started: 400,
            ended: 410,
            done: FAULT_ROUNDS as u64,
        }),
    );
    end_phase(&mut s, 1, 9, 9);
    end_run(&mut s, 3, 4);
    assert!(complete(&s));
    assert_eq!(report_shape(&s), None, "a wakeup crossed a CPU");
    end_run(&mut s, 4, 4);
    assert_eq!(report_shape(&s), Some("perf.scaling-replicated"));
}

#[test]
fn efficiency_is_against_one_worker_of_the_same_kind() {
    let phase = |active: usize, kind: PhaseKind, window: u64| Phase {
        active,
        kind,
        window,
        contended: 0,
    };
    let phases = [
        phase(1, PhaseKind::Ipc, 1000),
        phase(2, PhaseKind::Ipc, 1600),
        phase(1, PhaseKind::Fault, 300),
        phase(2, PhaseKind::Fault, 300),
        phase(3, PhaseKind::Fault, 0),
    ];
    let out = efficiency(&phases);
    assert_eq!(&out[..6], &[100, 62, 100, 100, 0, 0]);
    assert_eq!(out.len(), 14);
}
