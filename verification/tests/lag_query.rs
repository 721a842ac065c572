use drain_check::model::{
    GroupListing, Offset, PartitionLag, PartitionOffset, TopicMetadata, TopicPartition,
};
use drain_check::query::{LagQuery, QueryAction, QueryError, QueryEvent, QueryPhase};
use rdkafka::consumer::{BaseConsumer, Consumer};
use rdkafka::ClientConfig;
use std::time::Duration;

fn group(name: &str, state: &str) -> GroupListing {
    GroupListing { name: name.to_string(), state: state.to_string() }
}

fn topic(name: &str, partitions: &[i32]) -> TopicMetadata {
    TopicMetadata { name: name.to_string(), partitions: partitions.to_vec() }
}

fn watermarks_of(topic: &str, partition: i32) -> QueryAction {
    QueryAction::FetchWatermarks(TopicPartition { topic: topic.to_string(), partition })
}

fn committed_of(group: &str) -> QueryAction {
    QueryAction::FetchCommitted(group.to_string())
}

fn committed(topic: &str, partition: i32, offset: i64) -> PartitionOffset {
    let offset = Offset::Offset(offset);
    PartitionOffset { topic: topic.to_string(), partition, offset, failed: false }
}

fn without_offset(topic: &str, partition: i32, failed: bool) -> PartitionOffset {
    PartitionOffset { topic: topic.to_string(), partition, offset: Offset::Invalid, failed }
}

fn report(group: &str, topic: &str, partition: i32, committed: i64, high: i64) -> PartitionLag {
    PartitionLag {
        group_id: group.to_string(),
        topic: topic.to_string(),
        partition,
        committed_offset: committed,
        high_water_mark: high,
        lag: high - committed,
    }
}

fn two_partitions() -> LagQuery {
    let mut query = LagQuery::new();
    query.step(QueryEvent::Metadata(vec![topic("orders", &[0, 1])]));
    query.step(QueryEvent::Watermarks(Some((0, 10))));
    query.step(QueryEvent::Watermarks(Some((5, 20))));
    query
}

#[test]
fn a_query_starts_with_the_metadata() {
    let query = LagQuery::new();
    assert_eq!(query.phase(), QueryPhase::Metadata);
    assert_eq!(query.action(), QueryAction::FetchMetadata);
    assert_eq!(query.list().count(), 0);
}

#[test]
fn a_query_goes_through_partitions_and_groups() {
    let mut query = LagQuery::new();
    let topics = vec![
        topic("__consumer_offsets", &[0]),
        topic("orders", &[0, 1]),
        topic("users", &[0]),
    ];
    assert_eq!(query.step(QueryEvent::Metadata(topics)), watermarks_of("orders", 0));
    assert_eq!(query.action(), watermarks_of("orders", 0));
    assert_eq!(query.step(QueryEvent::Watermarks(Some((0, 10)))), watermarks_of("orders", 1));
    assert_eq!(query.step(QueryEvent::Watermarks(None)), watermarks_of("users", 0));
    assert_eq!(query.step(QueryEvent::Watermarks(Some((3, 30)))), QueryAction::ListGroups);
    assert_eq!(query.marks().get(&"orders".to_string(), 0), Some(10));
    assert_eq!(query.marks().get(&"orders".to_string(), 1), None);
    assert_eq!(query.marks().get(&"users".to_string(), 0), Some(30));
    let groups = vec![
        group("billing", "Stable"),
        group("old", "Empty"),
        group("audit", "Stable"),
        group("mail", "Stable"),
    ];
    assert_eq!(query.step(QueryEvent::Groups(groups)), committed_of("billing"));
    let billing = vec![
        committed("orders", 0, 4),
        committed("orders", 1, 0),
        committed("users", 0, 30),
    ];
    assert_eq!(query.step(QueryEvent::Committed(Some(billing))), committed_of("audit"));
    assert_eq!(query.step(QueryEvent::Committed(None)), committed_of("mail"));
    let mail = vec![committed("users", 0, 29), committed("orders", 0, 10)];
    assert_eq!(query.step(QueryEvent::Committed(Some(mail))), QueryAction::Finish);
    assert_eq!(query.phase(), QueryPhase::Done);
    assert_eq!(
        query.into_lags(),
        vec![report("billing", "orders", 0, 4, 10), report("mail", "users", 0, 29, 30)]
    );
}

#[test]
fn the_clients_list_holds_the_application_partitions() {
    let mut query = LagQuery::new();
    let topics = vec![topic("_skip", &[0]), topic("orders", &[3, 1]), topic("\u{e9}t\u{e9}", &[0])];
    query.step(QueryEvent::Metadata(topics));
    let list = query.list();
    assert_eq!(list.count(), 3);
    let entries: Vec<(String, i32, rdkafka::Offset)> = list
        .elements()
        .iter()
        .map(|e| (e.topic().to_string(), e.partition(), e.offset()))
        .collect();
    assert_eq!(
        entries,
        vec![
            ("orders".to_string(), 3, rdkafka::Offset::Invalid),
            ("orders".to_string(), 1, rdkafka::Offset::Invalid),
            ("\u{e9}t\u{e9}".to_string(), 0, rdkafka::Offset::Invalid),
        ]
    );
}

#[test]
fn the_clients_list_grows() {
    let partitions: Vec<i32> = (0..1000).collect();
    let mut query = LagQuery::new();
    query.step(QueryEvent::Metadata(vec![topic("wide", &partitions)]));
    let listed: Vec<i32> = query.list().elements().iter().map(|e| e.partition()).collect();
    assert_eq!(listed, partitions);
}

#[test]
fn no_application_topics_means_an_empty_report() {
    let mut query = LagQuery::new();
    let topics = vec![topic("__consumer_offsets", &[0, 1]), topic("bare", &[])];
    assert_eq!(query.step(QueryEvent::Metadata(topics)), QueryAction::Finish);
    assert_eq!(query.phase(), QueryPhase::Done);
    assert_eq!(query.into_lags(), vec![]);
}

#[test]
fn no_groups_that_count_means_an_empty_report() {
    let mut query = two_partitions();
    let groups = vec![group("a", "Dead"), group("antithesis-drain-check", "Stable")];
    assert_eq!(query.step(QueryEvent::Groups(groups)), QueryAction::Finish);
    assert_eq!(query.into_lags(), vec![]);
}

#[test]
fn caught_up_groups_leave_the_report_empty() {
    let mut query = two_partitions();
    query.step(QueryEvent::Groups(vec![group("a", "Stable")]));
    let offsets = vec![committed("orders", 0, 10), committed("orders", 1, 20)];
    assert_eq!(query.step(QueryEvent::Committed(Some(offsets))), QueryAction::Finish);
    assert_eq!(query.into_lags(), vec![]);
}

fn incomplete() -> QueryAction {
    QueryAction::Fail(QueryError::Incomplete)
}

#[test]
fn a_group_that_cannot_be_read_is_no_sign_of_catching_up() {
    let mut query = two_partitions();
    query.step(QueryEvent::Groups(vec![group("a", "Stable"), group("b", "Stable")]));
    assert_eq!(query.step(QueryEvent::Committed(None)), committed_of("b"));
    let offsets = vec![committed("orders", 0, 10), committed("orders", 1, 20)];
    assert_eq!(query.step(QueryEvent::Committed(Some(offsets))), incomplete());
    assert_eq!(query.phase(), QueryPhase::Failed(QueryError::Incomplete));
    assert_eq!(
        QueryError::Incomplete.message(),
        "failed to read every mark and committed offset"
    );
}

#[test]
fn an_offset_without_a_mark_is_no_sign_of_catching_up() {
    let mut query = LagQuery::new();
    query.step(QueryEvent::Metadata(vec![topic("orders", &[0])]));
    query.step(QueryEvent::Watermarks(None));
    query.step(QueryEvent::Groups(vec![group("a", "Stable")]));
    let offsets = vec![committed("orders", 0, 7)];
    assert_eq!(query.step(QueryEvent::Committed(Some(offsets))), incomplete());
}

#[test]
fn an_offset_with_an_error_is_no_sign_of_catching_up() {
    let mut query = two_partitions();
    query.step(QueryEvent::Groups(vec![group("a", "Stable")]));
    let offsets = vec![without_offset("orders", 0, true), committed("orders", 1, 20)];
    assert_eq!(query.step(QueryEvent::Committed(Some(offsets))), incomplete());
    let mut query = two_partitions();
    query.step(QueryEvent::Groups(vec![group("a", "Stable")]));
    let offsets = vec![without_offset("orders", 0, true), committed("orders", 1, 15)];
    assert_eq!(query.step(QueryEvent::Committed(Some(offsets))), QueryAction::Finish);
    assert_eq!(query.into_lags(), vec![report("a", "orders", 1, 15, 20)]);
}

#[test]
fn an_error_elsewhere_is_no_obstacle() {
    let mut query = two_partitions();
    query.step(QueryEvent::Groups(vec![group("a", "Stable")]));
    let offsets = vec![without_offset("elsewhere", 0, true), committed("orders", 1, 20)];
    assert_eq!(query.step(QueryEvent::Committed(Some(offsets))), QueryAction::Finish);
    assert_eq!(query.into_lags(), vec![]);
}

#[test]
fn lag_that_was_found_is_reported_whatever_was_missed() {
    let mut query = LagQuery::new();
    query.step(QueryEvent::Metadata(vec![topic("orders", &[0, 1])]));
    query.step(QueryEvent::Watermarks(None));
    query.step(QueryEvent::Watermarks(Some((0, 20))));
    query.step(QueryEvent::Groups(vec![group("a", "Stable"), group("b", "Stable")]));
    let offsets = vec![committed("orders", 0, 7), committed("orders", 1, 19)];
    query.step(QueryEvent::Committed(Some(offsets)));
    assert_eq!(query.step(QueryEvent::Committed(None)), QueryAction::Finish);
    assert_eq!(query.into_lags(), vec![report("a", "orders", 1, 19, 20)]);
}

#[test]
fn a_mark_that_nobody_needs_is_not_missed() {
    let mut query = LagQuery::new();
    query.step(QueryEvent::Metadata(vec![topic("orders", &[0, 1])]));
    query.step(QueryEvent::Watermarks(None));
    query.step(QueryEvent::Watermarks(Some((0, 20))));
    query.step(QueryEvent::Groups(vec![group("a", "Stable")]));
    let never = without_offset("orders", 0, false);
    let offsets = vec![never, committed("orders", 1, 20), committed("elsewhere", 0, 3)];
    assert_eq!(query.step(QueryEvent::Committed(Some(offsets))), QueryAction::Finish);
    assert_eq!(query.into_lags(), vec![]);
}

#[test]
fn no_groups_that_count_means_no_mark_is_missed() {
    let mut query = LagQuery::new();
    query.step(QueryEvent::Metadata(vec![topic("orders", &[0])]));
    query.step(QueryEvent::Watermarks(None));
    assert_eq!(query.step(QueryEvent::Groups(vec![group("a", "Empty")])), QueryAction::Finish);
    assert_eq!(query.into_lags(), vec![]);
}

#[test]
fn a_query_without_a_client_fails() {
    let mut query = LagQuery::new();
    assert_eq!(query.step(QueryEvent::ClientFailed), QueryAction::Fail(QueryError::Client));
    assert_eq!(query.phase(), QueryPhase::Failed(QueryError::Client));
    assert_eq!(QueryError::Client.message(), "failed to create metadata consumer");
}

#[test]
fn a_query_without_metadata_fails() {
    let mut query = LagQuery::new();
    assert_eq!(query.step(QueryEvent::MetadataFailed), QueryAction::Fail(QueryError::Metadata));
    assert_eq!(QueryError::Metadata.message(), "failed to fetch cluster metadata");
}

#[test]
fn a_query_without_groups_fails() {
    let mut query = two_partitions();
    assert_eq!(query.step(QueryEvent::GroupsFailed), QueryAction::Fail(QueryError::Groups));
    assert_eq!(QueryError::Groups.message(), "failed to list consumer groups");
}

#[test]
fn a_query_accepts_what_it_asked_for() {
    let query = LagQuery::new();
    assert!(query.accepts(&QueryEvent::ClientFailed));
    assert!(query.accepts(&QueryEvent::MetadataFailed));
    assert!(query.accepts(&QueryEvent::Metadata(vec![topic("a", &[0])])));
    assert!(!query.accepts(&QueryEvent::Watermarks(None)));
    assert!(!query.accepts(&QueryEvent::Groups(vec![])));
    assert!(!query.accepts(&QueryEvent::GroupsFailed));
    assert!(!query.accepts(&QueryEvent::Committed(None)));
    let query = two_partitions();
    assert!(query.accepts(&QueryEvent::Groups(vec![])));
    assert!(!query.accepts(&QueryEvent::Metadata(vec![])));
}

#[test]
fn an_ended_query_accepts_nothing() {
    let mut query = LagQuery::new();
    query.step(QueryEvent::Metadata(vec![]));
    for event in [
        QueryEvent::ClientFailed,
        QueryEvent::MetadataFailed,
        QueryEvent::Metadata(vec![]),
        QueryEvent::Watermarks(None),
        QueryEvent::GroupsFailed,
        QueryEvent::Groups(vec![]),
        QueryEvent::Committed(None),
    ] {
        assert!(!query.accepts(&event));
    }
}

#[test]
fn topics_that_the_client_cannot_name_are_not_accepted() {
    let query = LagQuery::new();
    assert!(!query.accepts(&QueryEvent::Metadata(vec![topic("a\0b", &[0])])));
    assert!(query.accepts(&QueryEvent::Metadata(vec![topic("a\0b", &[])])));
    assert!(query.accepts(&QueryEvent::Metadata(vec![topic("_a\0b", &[0])])));
}

#[test]
fn offsets_too_far_from_their_mark_are_not_accepted() {
    let mut query = LagQuery::new();
    query.step(QueryEvent::Metadata(vec![topic("a", &[0])]));
    query.step(QueryEvent::Watermarks(Some((0, i64::MAX))));
    query.step(QueryEvent::Groups(vec![group("g", "Stable")]));
    assert!(query.accepts(&QueryEvent::Committed(Some(vec![committed("a", 0, 0)]))));
    assert!(!query.accepts(&QueryEvent::Committed(Some(vec![committed("a", 0, -5)]))));
    assert!(query.accepts(&QueryEvent::Committed(Some(vec![committed("b", 0, -5)]))));
    assert!(query.accepts(&QueryEvent::Committed(None)));
}

#[test]
fn the_last_mark_of_a_partition_counts() {
    let mut query = LagQuery::new();
    query.step(QueryEvent::Metadata(vec![topic("a", &[0, 0, 0])]));
    query.step(QueryEvent::Watermarks(Some((0, 7))));
    query.step(QueryEvent::Watermarks(Some((0, 9))));
    query.step(QueryEvent::Watermarks(None));
    query.step(QueryEvent::Groups(vec![group("g", "Stable")]));
    query.step(QueryEvent::Committed(Some(vec![committed("a", 0, 7)])));
    assert_eq!(query.into_lags(), vec![report("g", "a", 0, 7, 9)]);
}

#[test]
fn a_clients_list_is_read_entry_by_entry() {
    let mut list = rdkafka::TopicPartitionList::new();
    list.add_partition("a", 0);
    list.add_partition_offset("a", 1, rdkafka::Offset::Offset(12)).unwrap();
    list.add_partition_offset("b", 7, rdkafka::Offset::Beginning).unwrap();
    list.add_partition_offset("b", 8, rdkafka::Offset::End).unwrap();
    list.add_partition_offset("b", 9, rdkafka::Offset::Stored).unwrap();
    list.add_partition_offset("c", 0, rdkafka::Offset::OffsetTail(3)).unwrap();
    let expected = vec![
        ("a", 0, Offset::Invalid),
        ("a", 1, Offset::Offset(12)),
        ("b", 7, Offset::Beginning),
        ("b", 8, Offset::End),
        ("b", 9, Offset::Stored),
        ("c", 0, Offset::OffsetTail(3)),
    ];
    match QueryEvent::committed(Some(&list)) {
        QueryEvent::Committed(Some(offsets)) => {
            let read: Vec<(&str, i32, Offset)> =
                offsets.iter().map(|o| (o.topic.as_str(), o.partition, o.offset)).collect();
            assert_eq!(read, expected);
            assert!(offsets.iter().all(|o| !o.failed));
        }
        _ => panic!("the list was not read"),
    }
}

#[test]
fn an_error_in_a_clients_list_is_read() {
    // Seeking in a partition that the consumer does not know leaves an error in its entry.
    let consumer: BaseConsumer = ClientConfig::new().set("group.id", "g").create().unwrap();
    let mut list = rdkafka::TopicPartitionList::new();
    list.add_partition("a", 0);
    list.add_partition_offset("a", 1, rdkafka::Offset::Offset(12)).unwrap();
    let list = consumer.seek_partitions(list, Duration::from_secs(1)).unwrap();
    match QueryEvent::committed(Some(&list)) {
        QueryEvent::Committed(Some(offsets)) => {
            let read: Vec<(i32, Offset, bool)> =
                offsets.iter().map(|o| (o.partition, o.offset, o.failed)).collect();
            assert_eq!(read, vec![(0, Offset::Invalid, true), (1, Offset::Offset(12), true)]);
        }
        _ => panic!("the list was not read"),
    }
}

#[test]
fn a_failed_read_is_an_event_without_offsets() {
    assert!(matches!(QueryEvent::committed(None), QueryEvent::Committed(None)));
}

#[test]
fn a_query_reads_its_own_list_back() {
    let mut query = LagQuery::new();
    query.step(QueryEvent::Metadata(vec![topic("a", &[4])]));
    match QueryEvent::committed(Some(query.list())) {
        QueryEvent::Committed(Some(offsets)) => {
            assert_eq!(offsets.len(), 1);
            assert_eq!(offsets[0].topic, "a");
            assert_eq!(offsets[0].partition, 4);
            assert_eq!(offsets[0].offset, Offset::Invalid);
            assert!(!offsets[0].failed);
        }
        _ => panic!("the list was not read"),
    }
}
