use promptproxy::shutdown::{shutdown_step, start_shutdown, ShutdownAction, GRACE_PERIOD_MS, POLL_INTERVAL_MS};

#[test]
fn stuck_process_is_interrupted_waited_for_then_killed() {
    let mut s = start_shutdown();
    let mut actions = Vec::new();
    for _ in 0..25 {
        let (next, action) = shutdown_step(s, false);
        actions.push(action);
        s = next;
    }
    assert_eq!(actions[0], ShutdownAction::Interrupt);
    for a in &actions[1..21] {
        assert_eq!(*a, ShutdownAction::Wait(POLL_INTERVAL_MS));
    }
    assert_eq!(actions[21], ShutdownAction::Kill);
    for a in &actions[22..] {
        assert_eq!(*a, ShutdownAction::Finished);
    }
    assert_eq!(20 * POLL_INTERVAL_MS, GRACE_PERIOD_MS);
}

#[test]
fn exited_process_is_not_killed() {
    let s = start_shutdown();
    let (s1, a1) = shutdown_step(s, false);
    assert_eq!(a1, ShutdownAction::Interrupt);
    let (s2, a2) = shutdown_step(s1, false);
    assert_eq!(a2, ShutdownAction::Wait(100));
    let (s3, a3) = shutdown_step(s2, true);
    assert_eq!(a3, ShutdownAction::Finished);
    assert!(s3.finished);
    assert_eq!(shutdown_step(s3, false).1, ShutdownAction::Finished);
}

#[test]
fn process_gone_before_interrupt_is_left_alone() {
    let (s, a) = shutdown_step(start_shutdown(), true);
    assert_eq!(a, ShutdownAction::Finished);
    assert!(!s.interrupted);
}
