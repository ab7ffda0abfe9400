use uni::supervisor::{
    Supervisor, SupervisorAction, SupervisorState, POLL_INTERVAL_MS, TERMINATION_GRACE_MS,
};

#[test]
fn test_interrupt_drives_running_to_done() {
    let mut sup = Supervisor::new(vec![4242]);
    assert_eq!(sup.phase(), SupervisorState::Running);
    assert_eq!(sup.handle_count(), 1);
    assert_eq!(sup.handle_at(0), 4242);

    // Nothing exited and no interrupt: keep running, sleep a poll interval.
    let action = sup.on_poll(false, false);
    assert_eq!(action, SupervisorAction::Sleep(POLL_INTERVAL_MS));
    assert_eq!(sup.phase(), SupervisorState::Running);

    // An interrupt arrives while the persistent step is running.
    let action = sup.on_poll(false, true);
    assert_eq!(action, SupervisorAction::Terminate(TERMINATION_GRACE_MS));
    assert_eq!(sup.phase(), SupervisorState::ShuttingDown);

    let done = sup.on_terminated();
    assert!(done);
    assert_eq!(sup.phase(), SupervisorState::Done);
}

#[test]
fn test_child_exit_ends_supervision() {
    let mut sup = Supervisor::new(vec![1, 2]);
    let action = sup.on_poll(true, false);
    assert_eq!(action, SupervisorAction::Terminate(TERMINATION_GRACE_MS));
    assert_eq!(sup.phase(), SupervisorState::ShuttingDown);
}

#[test]
fn test_no_handles_means_immediate_shutdown() {
    let mut sup = Supervisor::new(Vec::new());
    let action = sup.on_poll(false, false);
    assert_eq!(action, SupervisorAction::Terminate(TERMINATION_GRACE_MS));
    sup.on_terminated();
    assert_eq!(sup.phase(), SupervisorState::Done);
}
