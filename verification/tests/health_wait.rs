use drain_check::health::{backoff_secs, HealthAction, HealthWait, Probe, MAX_BACKOFF_SECS};

const SECOND: u128 = 1_000_000_000;

#[test]
fn three_brokers_are_enough() {
    assert!(Probe::Brokers(3).is_healthy());
    assert!(Probe::Brokers(4).is_healthy());
    assert!(!Probe::Brokers(2).is_healthy());
    assert!(!Probe::Brokers(0).is_healthy());
    assert!(!Probe::ClientFailed.is_healthy());
    assert!(!Probe::MetadataFailed.is_healthy());
}

#[test]
fn pauses_double_and_then_stay() {
    let pauses: Vec<u64> = (1..=8).map(backoff_secs).collect();
    assert_eq!(pauses, vec![1, 2, 4, 8, 10, 10, 10, 10]);
    assert_eq!(backoff_secs(u32::MAX), MAX_BACKOFF_SECS);
}

#[test]
fn pauses_agree_with_a_saturating_power() {
    for attempt in 1u32..200 {
        assert_eq!(backoff_secs(attempt), 10u64.min(2u64.saturating_pow(attempt - 1)));
    }
}

#[test]
fn a_wait_retries_until_the_brokers_are_back() {
    let mut wait = HealthWait::new(120 * SECOND);
    assert_eq!(wait.attempt(), 1);
    assert_eq!(wait.step(Probe::ClientFailed, 0), HealthAction::Retry(1));
    assert_eq!(wait.attempt(), 2);
    assert_eq!(wait.step(Probe::MetadataFailed, 11 * SECOND), HealthAction::Retry(2));
    assert_eq!(wait.step(Probe::Brokers(2), 13 * SECOND), HealthAction::Retry(4));
    assert_eq!(wait.attempt(), 4);
    assert_eq!(wait.step(Probe::Brokers(3), 17 * SECOND), HealthAction::Recovered);
    assert_eq!(wait.attempt(), 4);
}

#[test]
fn a_wait_ends_when_the_time_is_up() {
    let mut wait = HealthWait::new(120 * SECOND);
    assert_eq!(wait.step(Probe::Brokers(1), 120 * SECOND - 1), HealthAction::Retry(1));
    assert_eq!(wait.step(Probe::Brokers(1), 120 * SECOND), HealthAction::TimedOut);
}

#[test]
fn a_late_probe_with_enough_brokers_does_not_count() {
    let mut wait = HealthWait::new(5 * SECOND);
    assert_eq!(wait.step(Probe::Brokers(2), 0), HealthAction::Retry(1));
    assert_eq!(wait.step(Probe::Brokers(2), SECOND), HealthAction::Retry(2));
    assert_eq!(wait.step(Probe::Brokers(2), 3 * SECOND), HealthAction::Retry(4));
    assert_eq!(wait.step(Probe::Brokers(3), 7 * SECOND), HealthAction::TimedOut);
}

#[test]
fn enough_brokers_count_up_to_the_last_moment() {
    let mut wait = HealthWait::new(120 * SECOND);
    assert_eq!(wait.step(Probe::Brokers(3), 120 * SECOND), HealthAction::Recovered);
    assert_eq!(wait.step(Probe::Brokers(3), 120 * SECOND + 1), HealthAction::TimedOut);
    assert_eq!(wait.attempt(), 1);
}

#[test]
fn a_wait_that_keeps_its_pauses_comes_to_an_end() {
    let mut wait = HealthWait::new(120 * SECOND);
    let mut elapsed: u128 = 0;
    let mut probes = 1;
    while let HealthAction::Retry(pause) = wait.step(Probe::MetadataFailed, elapsed) {
        elapsed += u128::from(pause) * SECOND;
        probes += 1;
        assert!(probes <= 121);
    }
    assert_eq!(probes, 16);
    assert_eq!(elapsed, 125 * SECOND);
    assert_eq!(wait.step(Probe::MetadataFailed, elapsed), HealthAction::TimedOut);
}

#[test]
fn no_time_at_all_leaves_one_probe() {
    let mut wait = HealthWait::new(0);
    assert_eq!(wait.step(Probe::MetadataFailed, 0), HealthAction::TimedOut);
    assert_eq!(wait.attempt(), 1);
}

#[test]
fn an_early_wait_accepts_every_probe() {
    let wait = HealthWait::new(SECOND);
    assert!(wait.accepts(Probe::ClientFailed, 0));
    assert!(wait.accepts(Probe::Brokers(3), 0));
    assert!(wait.accepts(Probe::Brokers(0), 2 * SECOND));
    assert!(wait.accepts(Probe::Brokers(3), 2 * SECOND));
}
