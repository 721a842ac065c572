use drain_check::lag::{
    append_group_lags, application_partitions, checked_sum, counted_groups, counts_group,
    has_internal_name, judge_offset, lags_computable, leaves_unjudged, lists_partition, sum_lags,
    unmarked_partitions, CHECK_GROUP_ID,
};
use drain_check::model::{
    GroupListing, Offset, PartitionLag, PartitionOffset, TopicMetadata, TopicPartition,
};
use drain_check::watermarks::HighWaterMarks;

fn group(name: &str, state: &str) -> GroupListing {
    GroupListing { name: name.to_string(), state: state.to_string() }
}

fn topic(name: &str, partitions: &[i32]) -> TopicMetadata {
    TopicMetadata { name: name.to_string(), partitions: partitions.to_vec() }
}

fn partition(topic: &str, partition: i32) -> TopicPartition {
    TopicPartition { topic: topic.to_string(), partition }
}

fn offset(topic: &str, partition: i32, offset: Offset) -> PartitionOffset {
    PartitionOffset { topic: topic.to_string(), partition, offset, failed: false }
}

fn failed(topic: &str, partition: i32, offset: Offset) -> PartitionOffset {
    PartitionOffset { topic: topic.to_string(), partition, offset, failed: true }
}

fn lag(n: i64) -> PartitionLag {
    PartitionLag {
        group_id: "g".to_string(),
        topic: "t".to_string(),
        partition: 0,
        committed_offset: 0,
        high_water_mark: n,
        lag: n,
    }
}

#[test]
fn internal_names_start_with_an_underscore() {
    assert!(has_internal_name(&"__consumer_offsets".to_string()));
    assert!(has_internal_name(&"_".to_string()));
    assert!(!has_internal_name(&"a_b".to_string()));
    assert!(!has_internal_name(&"".to_string()));
    assert!(!has_internal_name(&"\u{e9}_".to_string()));
}

#[test]
fn only_stable_foreign_groups_count() {
    assert!(counts_group(&group("orders", "Stable")));
    assert!(!counts_group(&group("_internal", "Stable")));
    assert!(!counts_group(&group(CHECK_GROUP_ID, "Stable")));
    for state in ["Dead", "Empty", "PreparingRebalance", "stable", ""] {
        assert!(!counts_group(&group("orders", state)));
    }
}

#[test]
fn the_check_has_its_own_group() {
    assert_eq!(CHECK_GROUP_ID, "antithesis-drain-check");
}

#[test]
fn counted_groups_keep_their_order() {
    let groups = vec![
        group("b", "Stable"),
        group("_x", "Stable"),
        group("a", "Empty"),
        group("antithesis-drain-check", "Stable"),
        group("a", "Stable"),
    ];
    assert_eq!(counted_groups(&groups), vec!["b".to_string(), "a".to_string()]);
}

#[test]
fn application_partitions_leave_internal_topics_out() {
    let topics = vec![
        topic("orders", &[0, 2]),
        topic("__transaction_state", &[0, 1]),
        topic("empty", &[]),
        topic("users", &[7]),
    ];
    assert_eq!(
        application_partitions(&topics),
        vec![partition("orders", 0), partition("orders", 2), partition("users", 7)]
    );
    assert_eq!(application_partitions(&vec![topic("_a", &[0])]), vec![]);
}

#[test]
fn a_later_mark_replaces_an_earlier_one() {
    let mut marks = HighWaterMarks::new();
    let name = "t".to_string();
    assert_eq!(marks.get(&name, 0), None);
    marks.insert("t".to_string(), 0, 5);
    marks.insert("t".to_string(), 1, 6);
    marks.insert("u".to_string(), 0, 7);
    marks.insert("t".to_string(), 0, 9);
    assert_eq!(marks.get(&name, 0), Some(9));
    assert_eq!(marks.get(&name, 1), Some(6));
    assert_eq!(marks.get(&"u".to_string(), 0), Some(7));
    assert_eq!(marks.get(&"u".to_string(), 1), None);
}

#[test]
fn an_offset_behind_its_mark_is_reported() {
    let mut marks = HighWaterMarks::new();
    marks.insert("t".to_string(), 3, 100);
    let report = judge_offset(&"g".to_string(), &marks, &offset("t", 3, Offset::Offset(58)));
    assert_eq!(
        report,
        Some(PartitionLag {
            group_id: "g".to_string(),
            topic: "t".to_string(),
            partition: 3,
            committed_offset: 58,
            high_water_mark: 100,
            lag: 42,
        })
    );
}

#[test]
fn an_offset_at_or_ahead_of_its_mark_is_not_reported() {
    let mut marks = HighWaterMarks::new();
    marks.insert("t".to_string(), 0, 100);
    let g = "g".to_string();
    assert_eq!(judge_offset(&g, &marks, &offset("t", 0, Offset::Offset(100))), None);
    assert_eq!(judge_offset(&g, &marks, &offset("t", 0, Offset::Offset(101))), None);
    assert!(judge_offset(&g, &marks, &offset("t", 0, Offset::Offset(99))).is_some());
}

#[test]
fn an_offset_that_was_not_committed_is_not_reported() {
    let mut marks = HighWaterMarks::new();
    marks.insert("t".to_string(), 0, 100);
    let g = "g".to_string();
    for o in [
        Offset::Beginning,
        Offset::End,
        Offset::Stored,
        Offset::Invalid,
        Offset::OffsetTail(5),
    ] {
        assert_eq!(judge_offset(&g, &marks, &offset("t", 0, o)), None);
    }
}

#[test]
fn an_offset_without_a_mark_is_not_reported() {
    let mut marks = HighWaterMarks::new();
    marks.insert("t".to_string(), 0, 100);
    let g = "g".to_string();
    assert_eq!(judge_offset(&g, &marks, &offset("t", 1, Offset::Offset(0))), None);
    assert_eq!(judge_offset(&g, &marks, &offset("u", 0, Offset::Offset(0))), None);
}

#[test]
fn partitions_without_a_mark_are_listed_in_order() {
    let mut marks = HighWaterMarks::new();
    marks.insert("t".to_string(), 0, 10);
    let offsets = vec![
        offset("u", 2, Offset::Offset(1)),
        offset("t", 0, Offset::Offset(4)),
        offset("t", 1, Offset::Invalid),
        offset("t", 3, Offset::OffsetTail(2)),
        offset("t", 2, Offset::Offset(0)),
        offset("u", 2, Offset::Offset(5)),
    ];
    assert_eq!(
        unmarked_partitions(&marks, &offsets),
        vec![partition("u", 2), partition("t", 2), partition("u", 2)]
    );
    assert_eq!(unmarked_partitions(&marks, &vec![offset("t", 0, Offset::Offset(99))]), vec![]);
}

#[test]
fn an_offset_needs_a_mark_and_no_error_to_be_judged() {
    let mut marks = HighWaterMarks::new();
    marks.insert("t".to_string(), 0, 10);
    let asked = vec![partition("t", 0), partition("t", 1)];
    assert!(lists_partition(&asked, &"t".to_string(), 1));
    assert!(!lists_partition(&asked, &"t".to_string(), 2));
    assert!(!lists_partition(&asked, &"u".to_string(), 1));
    assert!(leaves_unjudged(&asked, &marks, &vec![offset("t", 1, Offset::Offset(7))]));
    assert!(!leaves_unjudged(&asked, &marks, &vec![offset("t", 1, Offset::Invalid)]));
    assert!(!leaves_unjudged(&asked, &marks, &vec![offset("t", 0, Offset::Offset(7))]));
    assert!(!leaves_unjudged(&asked, &marks, &vec![offset("u", 0, Offset::Offset(7))]));
    assert!(leaves_unjudged(&asked, &marks, &vec![failed("t", 1, Offset::Invalid)]));
    assert!(leaves_unjudged(&asked, &marks, &vec![failed("t", 0, Offset::Offset(10))]));
    assert!(!leaves_unjudged(&asked, &marks, &vec![failed("u", 0, Offset::Invalid)]));
    let g = "g".to_string();
    let behind = judge_offset(&g, &marks, &failed("t", 0, Offset::Offset(4)));
    assert_eq!(behind.map(|l| l.lag), Some(6));
}

#[test]
fn reports_of_groups_are_appended_in_order() {
    let mut marks = HighWaterMarks::new();
    marks.insert("t".to_string(), 0, 10);
    marks.insert("t".to_string(), 1, 10);
    let mut lags = vec![lag(1)];
    let offsets = vec![
        offset("t", 1, Offset::Offset(4)),
        offset("t", 2, Offset::Offset(4)),
        offset("t", 0, Offset::Offset(10)),
        offset("t", 0, Offset::Offset(7)),
    ];
    append_group_lags(&mut lags, &"h".to_string(), &marks, &offsets);
    let sizes: Vec<(i32, i64)> = lags.iter().map(|l| (l.partition, l.lag)).collect();
    assert_eq!(sizes, vec![(0, 1), (1, 6), (0, 3)]);
    assert_eq!(lags[1].group_id, "h");
}

#[test]
fn differences_beyond_64_bits_are_noticed() {
    let mut marks = HighWaterMarks::new();
    marks.insert("t".to_string(), 0, i64::MAX);
    marks.insert("u".to_string(), 0, i64::MIN);
    assert!(lags_computable(&marks, &vec![offset("t", 0, Offset::Offset(0))]));
    assert!(!lags_computable(&marks, &vec![offset("t", 0, Offset::Offset(-1))]));
    assert!(!lags_computable(&marks, &vec![offset("u", 0, Offset::Offset(1))]));
    assert!(lags_computable(&marks, &vec![offset("u", 0, Offset::Offset(0))]));
    assert!(lags_computable(&marks, &vec![offset("u", 1, Offset::Offset(1))]));
    assert!(lags_computable(&marks, &vec![offset("t", 0, Offset::OffsetTail(-1))]));
}

#[test]
fn lags_add_up() {
    assert_eq!(sum_lags(&vec![]), 0);
    assert_eq!(sum_lags(&vec![lag(3), lag(4), lag(5)]), 12);
    assert_eq!(checked_sum(&vec![lag(i64::MAX)]), Some(i64::MAX));
    assert_eq!(checked_sum(&vec![lag(i64::MAX), lag(1)]), None);
    assert_eq!(checked_sum(&vec![lag(i64::MAX), lag(1), lag(-1)]), None);
    assert_eq!(checked_sum(&vec![lag(-1), lag(i64::MIN)]), None);
}
