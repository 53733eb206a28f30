use twilight_kernel::preempt::{
    account_quantum, can_resched_now, clear_need_resched, clear_quantum, enter_vfs_context,
    held_lock_count, in_scheduler, in_vfs_context, irq_depth, irq_enter, irq_exit, irq_restore,
    irq_save, kernel_preemptible, lock_count_dec, lock_count_inc, locks_held, need_resched,
    preempt_count, preempt_disable, preempt_enable_no_resched, quantum_deadline_ns, reset_quantum,
    set_need_resched, warn_if_schedule_unsafe, Hazard, Preempt, SchedulerGuard, Section,
};

#[test]
fn counters_go_up_and_down() {
    let mut p = Preempt::new();
    preempt_disable(&mut p);
    preempt_disable(&mut p);
    assert_eq!(preempt_count(&p), 2);
    preempt_enable_no_resched(&mut p);
    preempt_enable_no_resched(&mut p);
    preempt_enable_no_resched(&mut p);
    assert_eq!(preempt_count(&p), 0);
    irq_enter(&mut p);
    assert_eq!(irq_depth(&p), 1);
    irq_exit(&mut p);
    assert_eq!(irq_depth(&p), 0);
    lock_count_inc(&mut p);
    assert!(locks_held(&p));
    assert_eq!(held_lock_count(&p), 1);
    lock_count_dec(&mut p);
    assert!(!locks_held(&p));
}

#[test]
fn a_task_is_due_only_outside() {
    let mut p = Preempt::new();
    assert!(!can_resched_now(&p));
    set_need_resched(&mut p);
    assert!(need_resched(&p));
    assert!(can_resched_now(&p));
    assert!(kernel_preemptible(&p));
    let g = enter_vfs_context(&mut p);
    assert!(in_vfs_context(&p));
    assert!(!kernel_preemptible(&p));
    lock_count_inc(&mut p);
    irq_enter(&mut p);
    assert_eq!(
        warn_if_schedule_unsafe(&p),
        vec![Hazard::Interrupt, Hazard::Locks, Hazard::Inside(Section::Vfs)]
    );
    irq_exit(&mut p);
    lock_count_dec(&mut p);
    g.leave(&mut p);
    assert!(!in_vfs_context(&p));
    assert!(warn_if_schedule_unsafe(&p).is_empty());
    clear_need_resched(&mut p);
    assert!(!can_resched_now(&p));
}

#[test]
fn the_scheduler_is_entered_once() {
    let mut p = Preempt::new();
    let g = SchedulerGuard::try_enter(&mut p);
    assert!(g.is_some());
    assert!(in_scheduler(&p));
    assert!(SchedulerGuard::try_enter(&mut p).is_none());
    g.unwrap().release_before_switch(&mut p);
    assert!(!in_scheduler(&p));
    preempt_disable(&mut p);
    assert!(SchedulerGuard::try_enter(&mut p).is_none());
}

#[test]
fn a_quantum_ends() {
    let mut p = Preempt::new();
    assert_eq!(quantum_deadline_ns(&p), None);
    reset_quantum(&mut p, 1000);
    let end = quantum_deadline_ns(&p).unwrap();
    assert!(end > 1000);
    account_quantum(&mut p, end - 1);
    assert!(!need_resched(&p));
    account_quantum(&mut p, end);
    assert!(need_resched(&p));
    clear_quantum(&mut p);
    assert_eq!(quantum_deadline_ns(&p), None);
}

#[test]
fn interrupts_are_restored() {
    let mut p = Preempt::new();
    assert!(irq_save(&mut p, true));
    assert!(irq_restore(&mut p, true));
    assert!(!irq_save(&mut p, false));
    assert!(!irq_restore(&mut p, false));
}
