use drain_check::drain::{Backlog, Conclusion, DrainAction, DrainCheck, DrainEvent};
use drain_check::model::{GroupListing, Offset, PartitionLag, PartitionOffset, TopicMetadata};
use drain_check::query::{LagQuery, QueryAction, QueryEvent};

/// Queries a cluster with one topic of two partitions, marks 10 and 20, and two groups with the
/// offsets given.
fn query(offsets: [(i64, i64); 2]) -> Vec<PartitionLag> {
    let mut query = LagQuery::new();
    let mut events = 0;
    let mut next_mark = 10;
    let mut next_group = 0;
    let mut action = query.action();
    loop {
        let event = match action {
            QueryAction::FetchMetadata => QueryEvent::Metadata(vec![
                TopicMetadata { name: "__offsets".to_string(), partitions: vec![0] },
                TopicMetadata { name: "orders".to_string(), partitions: vec![0, 1] },
            ]),
            QueryAction::FetchWatermarks(partition) => {
                assert_eq!(partition.topic, "orders");
                let mark = next_mark;
                next_mark += 10;
                QueryEvent::Watermarks(Some((0, mark)))
            }
            QueryAction::ListGroups => QueryEvent::Groups(vec![
                GroupListing { name: "a".to_string(), state: "Stable".to_string() },
                GroupListing { name: "stale".to_string(), state: "Empty".to_string() },
                GroupListing { name: "b".to_string(), state: "Stable".to_string() },
            ]),
            QueryAction::FetchCommitted(_) => {
                let (first, second) = offsets[next_group];
                next_group += 1;
                QueryEvent::Committed(Some(vec![
                    PartitionOffset {
                        topic: "orders".to_string(),
                        partition: 0,
                        offset: Offset::Offset(first),
                        failed: false,
                    },
                    PartitionOffset {
                        topic: "orders".to_string(),
                        partition: 1,
                        offset: Offset::Offset(second),
                        failed: false,
                    },
                ]))
            }
            QueryAction::Finish => break,
            QueryAction::Fail(error) => panic!("{}", error.message()),
        };
        assert!(query.accepts(&event));
        action = query.step(event);
        events += 1;
    }
    // One event for the topics, two for the partitions, one for the groups, two for those that
    // count.
    assert_eq!(events, 6);
    query.into_lags()
}

#[test]
fn a_check_follows_the_consumers_until_they_have_caught_up() {
    let mut check = DrainCheck::new();
    assert_eq!(check.step(DrainEvent::Health(true)), DrainAction::ReportReached);
    let first = query([(10, 15), (8, 20)]);
    assert_eq!(first.len(), 2);
    assert_eq!((first[0].group_id.as_str(), first[0].partition, first[0].lag), ("a", 1, 5));
    assert_eq!((first[1].group_id.as_str(), first[1].partition, first[1].lag), ("b", 0, 2));
    assert_eq!(
        check.step(DrainEvent::Reading(Some(first), 0)),
        DrainAction::Poll(Some(Backlog { observed_lag: 7, lagging_partition_count: 2 }), 5)
    );
    let second = query([(10, 20), (10, 20)]);
    assert!(second.is_empty());
    assert_eq!(
        check.step(DrainEvent::Reading(Some(second), 5_000_000_000)),
        DrainAction::Conclude(None, Conclusion { all_caught_up: true, final_lag_total: 0 })
    );
}

#[test]
fn one_entry_per_group_and_partition() {
    let lags = query([(0, 0), (0, 0)]);
    let mut seen: Vec<(String, i32)> = Vec::new();
    for lag in &lags {
        let place = (lag.group_id.clone(), lag.partition);
        assert!(!seen.contains(&place));
        seen.push(place);
        assert_eq!(lag.lag, lag.high_water_mark - lag.committed_offset);
    }
    assert_eq!(seen.len(), 4);
}

#[test]
fn a_read_that_fails_keeps_the_check_from_concluding() {
    let mut lag_query = LagQuery::new();
    lag_query.step(QueryEvent::Metadata(vec![TopicMetadata {
        name: "orders".to_string(),
        partitions: vec![0],
    }]));
    lag_query.step(QueryEvent::Watermarks(Some((0, 10))));
    lag_query.step(QueryEvent::Groups(vec![GroupListing {
        name: "a".to_string(),
        state: "Stable".to_string(),
    }]));
    let reading = match lag_query.step(QueryEvent::Committed(None)) {
        QueryAction::Finish => Some(lag_query.into_lags()),
        QueryAction::Fail(_) => None,
        _ => unreachable!(),
    };
    assert_eq!(reading, None);
    let mut check = DrainCheck::new();
    check.step(DrainEvent::Health(true));
    check.step(DrainEvent::Reading(Some(query([(10, 15), (10, 20)])), 0));
    assert_eq!(
        check.step(DrainEvent::Reading(reading, 5_000_000_000)),
        DrainAction::Poll(Some(Backlog { observed_lag: 5, lagging_partition_count: 1 }), 5)
    );
}
