use redpine::wait::Wait;

#[test]
fn waits_are_limited_by_timers() {
    let wait = Wait::new(1_000);
    assert_eq!(wait.limit(None), 1_000);
    assert_eq!(wait.limit(Some(250)), 250);
    assert_eq!(wait.limit(Some(1_000)), 1_000);
    assert_eq!(wait.limit(Some(4_000)), 1_000);
}

#[test]
fn waits_end_in_time() {
    let mut wait = Wait::new(1_000);
    assert!(wait.pass(400));
    assert_eq!(wait.limit(None), 600);
    assert!(wait.pass(599));
    assert_eq!(wait.limit(Some(250)), 1);
    assert!(!wait.pass(1));

    let mut wait = Wait::new(0);
    assert!(!wait.pass(0));
    let mut wait = Wait::new(u128::MAX);
    assert!(wait.pass(u128::MAX - 1));
    assert!(!wait.pass(2));
}
