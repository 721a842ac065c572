//! The plain values that a drain check reads and reports, with their mathematical views.

use vstd::prelude::*;

verus! {

/// A partition as contracts see it: the topic's name and the partition's number.
pub type PartitionKey = (Seq<char>, int);

/// One partition of one topic.
#[derive(Debug, PartialEq, Eq)]
pub struct TopicPartition {
    pub topic: String,
    pub partition: i32,
}

impl View for TopicPartition {
    type V = PartitionKey;

    open spec fn view(&self) -> PartitionKey {
        (self.topic@, self.partition as int)
    }
}

/// The keys of a sequence of partitions.
pub open spec fn keys_of(partitions: Seq<TopicPartition>) -> Seq<PartitionKey> {
    partitions.map_values(|p: TopicPartition| p@)
}

/// A topic in the cluster's metadata, with the numbers of its partitions.
#[derive(Debug, PartialEq, Eq)]
pub struct TopicMetadata {
    pub name: String,
    pub partitions: Vec<i32>,
}

/// A topic as contracts see it.
#[verifier::ext_equal]
pub struct TopicView {
    pub name: Seq<char>,
    pub partitions: Seq<i32>,
}

impl View for TopicMetadata {
    type V = TopicView;

    open spec fn view(&self) -> TopicView {
        TopicView { name: self.name@, partitions: self.partitions@ }
    }
}

/// The views of a sequence of topics.
pub open spec fn topic_views(topics: Seq<TopicMetadata>) -> Seq<TopicView> {
    topics.map_values(|t: TopicMetadata| t@)
}

/// A consumer group in the cluster's group list.
#[derive(Debug, PartialEq, Eq)]
pub struct GroupListing {
    pub name: String,
    pub state: String,
}

/// A consumer group as contracts see it.
#[verifier::ext_equal]
pub struct GroupView {
    pub name: Seq<char>,
    pub state: Seq<char>,
}

impl View for GroupListing {
    type V = GroupView;

    open spec fn view(&self) -> GroupView {
        GroupView { name: self.name@, state: self.state@ }
    }
}

/// The views of a sequence of groups.
pub open spec fn group_views(groups: Seq<GroupListing>) -> Seq<GroupView> {
    groups.map_values(|g: GroupListing| g@)
}

/// The texts of a sequence of strings.
pub open spec fn texts(strings: Seq<String>) -> Seq<Seq<char>> {
    strings.map_values(|s: String| s@)
}

/// A position in a partition. Only `Offset` is a position that a group has committed; the
/// others are the logical positions of the Kafka client.
#[derive(Debug, Clone, Copy, PartialEq, Eq, Structural)]
pub enum Offset {
    Beginning,
    End,
    Stored,
    Invalid,
    Offset(i64),
    OffsetTail(i64),
}

/// The offset that a consumer group has for one partition.
#[derive(Debug, PartialEq, Eq)]
pub struct PartitionOffset {
    pub topic: String,
    pub partition: i32,
    pub offset: Offset,
    /// The cluster gave an error for this partition, so the offset does not tell what the group
    /// has committed.
    pub failed: bool,
}

/// A partition's offset as contracts see it.
#[verifier::ext_equal]
pub struct OffsetView {
    pub key: PartitionKey,
    pub offset: Offset,
    pub failed: bool,
}

impl View for PartitionOffset {
    type V = OffsetView;

    open spec fn view(&self) -> OffsetView {
        OffsetView {
            key: (self.topic@, self.partition as int),
            offset: self.offset,
            failed: self.failed,
        }
    }
}

/// The views of a sequence of offsets.
pub open spec fn offset_views(offsets: Seq<PartitionOffset>) -> Seq<OffsetView> {
    offsets.map_values(|o: PartitionOffset| o@)
}

/// A group that is behind the high-water mark of one partition. Both offsets name the next
/// message, so `lag` is their difference and a group that has caught up would have lag 0.
#[derive(Debug, PartialEq, Eq)]
pub struct PartitionLag {
    pub group_id: String,
    pub topic: String,
    pub partition: i32,
    pub committed_offset: i64,
    pub high_water_mark: i64,
    pub lag: i64,
}

/// A partition's lag as contracts see it.
#[verifier::ext_equal]
pub struct LagView {
    pub group_id: Seq<char>,
    pub key: PartitionKey,
    pub committed_offset: int,
    pub high_water_mark: int,
    pub lag: int,
}

impl View for PartitionLag {
    type V = LagView;

    open spec fn view(&self) -> LagView {
        LagView {
            group_id: self.group_id@,
            key: (self.topic@, self.partition as int),
            committed_offset: self.committed_offset as int,
            high_water_mark: self.high_water_mark as int,
            lag: self.lag as int,
        }
    }
}

/// The views of a sequence of lags.
pub open spec fn lag_views(lags: Seq<PartitionLag>) -> Seq<LagView> {
    lags.map_values(|l: PartitionLag| l@)
}

} // verus!
