use drain_check::drain::{
    Backlog, DrainAction, DrainCheck, DrainEvent, DrainPhase, Conclusion, DRAIN_TIMEOUT_NANOS,
    POLL_INTERVAL_SECS,
};
use drain_check::model::PartitionLag;

fn lag(n: i64) -> PartitionLag {
    PartitionLag {
        group_id: "g".to_string(),
        topic: "t".to_string(),
        partition: 0,
        committed_offset: 0,
        high_water_mark: n,
        lag: n,
    }
}

fn reading(lags: &[i64], elapsed: u128) -> DrainEvent {
    DrainEvent::Reading(Some(lags.iter().map(|n| lag(*n)).collect()), elapsed)
}

fn backlog(observed_lag: i64, lagging_partition_count: usize) -> Option<Backlog> {
    Some(Backlog { observed_lag, lagging_partition_count })
}

fn reached() -> DrainCheck {
    let mut check = DrainCheck::new();
    assert_eq!(check.step(DrainEvent::Health(true)), DrainAction::ReportReached);
    check
}

const CAUGHT_UP: Conclusion = Conclusion { all_caught_up: true, final_lag_total: 0 };

#[test]
fn an_unreachable_cluster_gets_no_conclusion() {
    let mut check = DrainCheck::new();
    assert_eq!(check.phase(), DrainPhase::Health);
    assert_eq!(check.step(DrainEvent::Health(false)), DrainAction::ReportUnreachable);
    assert_eq!(check.phase(), DrainPhase::Unreachable);
    assert!(!check.accepts(&reading(&[], 0)));
    assert!(!check.accepts(&DrainEvent::Health(true)));
}

#[test]
fn no_lag_at_all_concludes_at_once() {
    let mut check = reached();
    assert_eq!(check.step(reading(&[], 0)), DrainAction::Conclude(None, CAUGHT_UP));
    assert_eq!(check.phase(), DrainPhase::Concluded);
    assert_eq!(check.attempts(), 0);
}

#[test]
fn lag_is_polled_until_it_is_gone() {
    let mut check = reached();
    assert_eq!(
        check.step(reading(&[5, 6], 0)),
        DrainAction::Poll(backlog(11, 2), POLL_INTERVAL_SECS)
    );
    assert_eq!(check.attempts(), 1);
    assert_eq!(
        check.step(reading(&[2], 5_000_000_000)),
        DrainAction::Poll(backlog(2, 1), 5)
    );
    assert_eq!(check.attempts(), 2);
    assert_eq!(
        check.step(reading(&[], 10_000_000_000)),
        DrainAction::Conclude(None, CAUGHT_UP)
    );
    assert!(check.current().is_empty());
    assert_eq!(check.attempts(), 2);
}

#[test]
fn a_failed_query_keeps_the_report() {
    let mut check = reached();
    check.step(reading(&[4], 0));
    assert_eq!(
        check.step(DrainEvent::Reading(None, 1)),
        DrainAction::Poll(backlog(4, 1), POLL_INTERVAL_SECS)
    );
    assert_eq!(check.current(), &vec![lag(4)]);
    assert_eq!(
        check.step(DrainEvent::Reading(None, DRAIN_TIMEOUT_NANOS)),
        DrainAction::Conclude(
            backlog(4, 1),
            Conclusion { all_caught_up: false, final_lag_total: 4 }
        )
    );
}

#[test]
fn a_failed_first_query_fails_the_check() {
    let mut check = reached();
    assert_eq!(check.step(DrainEvent::Reading(None, 0)), DrainAction::Fail);
    assert_eq!(check.phase(), DrainPhase::Failed);
    assert!(!check.accepts(&reading(&[], 0)));
}

#[test]
fn lag_at_the_end_of_the_time_is_the_conclusion() {
    let mut check = reached();
    assert_eq!(
        check.step(reading(&[1], DRAIN_TIMEOUT_NANOS - 1)),
        DrainAction::Poll(backlog(1, 1), 5)
    );
    assert_eq!(
        check.step(reading(&[7, 8], DRAIN_TIMEOUT_NANOS)),
        DrainAction::Conclude(
            backlog(15, 2),
            Conclusion { all_caught_up: false, final_lag_total: 15 }
        )
    );
    assert_eq!(check.current(), &vec![lag(7), lag(8)]);
}

#[test]
fn a_check_that_keeps_its_pauses_comes_to_an_end() {
    let mut check = reached();
    let mut elapsed: u128 = 0;
    let mut readings = 1;
    while let DrainAction::Poll(_, pause) = check.step(reading(&[7], elapsed)) {
        assert!(readings <= 24);
        assert_eq!(check.attempts(), readings);
        elapsed += u128::from(pause) * 1_000_000_000;
        readings += 1;
    }
    assert_eq!(readings, 25);
    assert_eq!(elapsed, DRAIN_TIMEOUT_NANOS);
    assert_eq!(check.phase(), DrainPhase::Concluded);
}

#[test]
fn no_lag_after_the_time_is_still_caught_up() {
    let mut check = reached();
    check.step(reading(&[1], 0));
    assert_eq!(
        check.step(reading(&[], 2 * DRAIN_TIMEOUT_NANOS)),
        DrainAction::Conclude(None, CAUGHT_UP)
    );
}

#[test]
fn the_time_is_two_minutes() {
    assert_eq!(DRAIN_TIMEOUT_NANOS, std::time::Duration::from_secs(120).as_nanos());
}

#[test]
fn a_check_accepts_what_it_asked_for() {
    let check = DrainCheck::new();
    assert!(check.accepts(&DrainEvent::Health(true)));
    assert!(!check.accepts(&reading(&[], 0)));
    let check = reached();
    assert!(check.accepts(&reading(&[1], 0)));
    assert!(check.accepts(&DrainEvent::Reading(None, 0)));
    assert!(!check.accepts(&DrainEvent::Health(true)));
}

#[test]
fn lag_beyond_64_bits_is_not_accepted() {
    let check = reached();
    assert!(check.accepts(&reading(&[i64::MAX], 0)));
    assert!(!check.accepts(&reading(&[i64::MAX, 1], 0)));
}
