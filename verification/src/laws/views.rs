//! What contracts see of a value: each of its parts, unchanged and in order.

use vstd::prelude::*;

use crate::drain::{
    backlog_view, Backlog, BacklogView, Conclusion, ConclusionView, DrainAction, DrainActionView,
    DrainEvent, DrainEventView,
};
use crate::model::{
    group_views, keys_of, lag_views, offset_views, texts, topic_views, GroupListing, PartitionLag,
    PartitionOffset, TopicMetadata, TopicPartition,
};
use crate::query::{QueryAction, QueryActionView, QueryError, QueryEvent, QueryEventView};

verus! {

/// The view of a partition is its topic's name and its number, and a sequence of partitions is
/// seen one by one.
pub proof fn partitions_are_seen_whole(partitions: Seq<TopicPartition>)
    ensures
        keys_of(partitions).len() == partitions.len(),
        forall|i: int|
            0 <= i < partitions.len() ==> {
                &&& (#[trigger] keys_of(partitions)[i]).0 == partitions[i].topic@
                &&& keys_of(partitions)[i].1 == partitions[i].partition
            },
{
}

/// The view of a topic is its name and the numbers of its partitions, and a sequence of topics
/// is seen one by one.
pub proof fn topics_are_seen_whole(topics: Seq<TopicMetadata>)
    ensures
        topic_views(topics).len() == topics.len(),
        forall|i: int|
            0 <= i < topics.len() ==> {
                &&& (#[trigger] topic_views(topics)[i]).name == topics[i].name@
                &&& topic_views(topics)[i].partitions == topics[i].partitions@
            },
{
}

/// The view of a group is its name and its state, and a sequence of groups is seen one by one;
/// so is a sequence of strings.
pub proof fn groups_are_seen_whole(groups: Seq<GroupListing>, strings: Seq<String>)
    ensures
        group_views(groups).len() == groups.len(),
        forall|i: int|
            0 <= i < groups.len() ==> {
                &&& (#[trigger] group_views(groups)[i]).name == groups[i].name@
                &&& group_views(groups)[i].state == groups[i].state@
            },
        texts(strings).len() == strings.len(),
        forall|i: int| 0 <= i < strings.len() ==> #[trigger] texts(strings)[i] == strings[i]@,
{
}

/// The view of an offset is its partition, its position and whether it came with an error, and a
/// sequence of offsets is seen one by one.
pub proof fn offsets_are_seen_whole(offsets: Seq<PartitionOffset>)
    ensures
        offset_views(offsets).len() == offsets.len(),
        forall|i: int|
            0 <= i < offsets.len() ==> {
                &&& (#[trigger] offset_views(offsets)[i]).key.0 == offsets[i].topic@
                &&& offset_views(offsets)[i].key.1 == offsets[i].partition
                &&& offset_views(offsets)[i].offset == offsets[i].offset
                &&& offset_views(offsets)[i].failed == offsets[i].failed
            },
{
}

/// The view of an entry is its group, its partition, both offsets and the lag, and a report is
/// seen entry by entry.
pub proof fn reports_are_seen_whole(lags: Seq<PartitionLag>)
    ensures
        lag_views(lags).len() == lags.len(),
        forall|i: int|
            0 <= i < lags.len() ==> {
                &&& (#[trigger] lag_views(lags)[i]).group_id == lags[i].group_id@
                &&& lag_views(lags)[i].key.0 == lags[i].topic@
                &&& lag_views(lags)[i].key.1 == lags[i].partition
                &&& lag_views(lags)[i].committed_offset == lags[i].committed_offset
                &&& lag_views(lags)[i].high_water_mark == lags[i].high_water_mark
                &&& lag_views(lags)[i].lag == lags[i].lag
            },
{
}

/// Contracts see each event of a query for what it is, with all that it tells.
pub proof fn query_events_are_seen_whole(
    topics: Vec<TopicMetadata>,
    low: i64,
    high: i64,
    groups: Vec<GroupListing>,
    offsets: Vec<PartitionOffset>,
)
    ensures
        QueryEvent::ClientFailed@ == QueryEventView::ClientFailed,
        QueryEvent::MetadataFailed@ == QueryEventView::MetadataFailed,
        QueryEvent::GroupsFailed@ == QueryEventView::GroupsFailed,
        QueryEvent::Metadata(topics)@ == QueryEventView::Metadata(topic_views(topics@)),
        QueryEvent::Watermarks(Some((low, high)))@ == QueryEventView::Watermarks(
            Some((low as int, high as int)),
        ),
        QueryEvent::Watermarks(None)@ == QueryEventView::Watermarks(None),
        QueryEvent::Groups(groups)@ == QueryEventView::Groups(group_views(groups@)),
        QueryEvent::Committed(Some(offsets))@ == QueryEventView::Committed(
            Some(offset_views(offsets@)),
        ),
        QueryEvent::Committed(None)@ == QueryEventView::Committed(None),
{
}

/// Contracts see each action of a query for what it is, with the partition or group that it is
/// about.
pub proof fn query_actions_are_seen_whole(
    partition: TopicPartition,
    group: String,
    error: QueryError,
)
    ensures
        QueryAction::FetchMetadata@ == QueryActionView::FetchMetadata,
        QueryAction::FetchWatermarks(partition)@ == QueryActionView::FetchWatermarks(
            (partition.topic@, partition.partition as int),
        ),
        QueryAction::ListGroups@ == QueryActionView::ListGroups,
        QueryAction::FetchCommitted(group)@ == QueryActionView::FetchCommitted(group@),
        QueryAction::Finish@ == QueryActionView::Finish,
        QueryAction::Fail(error)@ == QueryActionView::Fail(error),
{
}

/// Contracts see each event of a drain check for what it is, with the report and the time.
pub proof fn check_events_are_seen_whole(recovered: bool, lags: Vec<PartitionLag>, elapsed: u128)
    ensures
        DrainEvent::Health(recovered)@ == DrainEventView::Health(recovered),
        DrainEvent::Reading(Some(lags), elapsed)@ == DrainEventView::Reading(
            Some(lag_views(lags@)),
            elapsed as int,
        ),
        DrainEvent::Reading(None, elapsed)@ == DrainEventView::Reading(None, elapsed as int),
{
}

/// Contracts see each action of a drain check for what it is, with the backlog, the pause and the
/// conclusion.
pub proof fn check_actions_are_seen_whole(
    backlog: Option<Backlog>,
    pause: u64,
    conclusion: Conclusion,
)
    ensures
        DrainAction::ReportUnreachable@ == DrainActionView::ReportUnreachable,
        DrainAction::ReportReached@ == DrainActionView::ReportReached,
        DrainAction::Fail@ == DrainActionView::Fail,
        DrainAction::Poll(backlog, pause)@ == DrainActionView::Poll(
            backlog_view(backlog),
            pause as int,
        ),
        DrainAction::Conclude(backlog, conclusion)@ == DrainActionView::Conclude(
            backlog_view(backlog),
            (ConclusionView {
                all_caught_up: conclusion.all_caught_up,
                final_lag_total: conclusion.final_lag_total as int,
            }),
        ),
        backlog_view(backlog) == match backlog {
            Some(b) => Some(
                BacklogView {
                    observed_lag: b.observed_lag as int,
                    lagging_partition_count: b.lagging_partition_count as nat,
                },
            ),
            None => None,
        },
{
}

} // verus!
