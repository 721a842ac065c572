//! The Kafka client's own list of topic partitions.
//!
//! The list lives in the client library; verified code reaches it through the functions here,
//! whose contracts are believed and not proved.

use rdkafka::TopicPartitionList;
use vstd::prelude::*;

use crate::model::{offset_views, Offset, OffsetView, PartitionKey, PartitionOffset};

verus! {

/// The Kafka client's partition list, opaque to the verifier.
#[verifier::external_type_specification]
#[verifier::external_body]
pub struct ExTopicPartitionList(TopicPartitionList);

/// What a partition list holds, first to last: each entry with its topic, partition and offset,
/// and whether it carries an error. Where a topic's name is not text, its entry is
/// left open.
pub uninterp spec fn listed(list: TopicPartitionList) -> Seq<OffsetView>;

/// The topic names in a partition list are UTF-8 text. The client can put other names into a
/// list that it makes itself.
pub uninterp spec fn names_are_text(list: TopicPartitionList) -> bool;

/// The number of entries up to which a list can grow: the client doubles the list's size, a
/// 32-bit signed integer, whenever the list is full.
pub const LIST_LIMIT: usize = 0x4000_0000;

/// A partition's entry as it is added to a list: without an offset and without an error.
pub open spec fn fresh_entry(key: PartitionKey) -> OffsetView {
    OffsetView { key, offset: Offset::Invalid, failed: false }
}

/// What a list holds once the partitions `keys` have been added to an empty one.
pub open spec fn unassigned(keys: Seq<PartitionKey>) -> Seq<OffsetView> {
    keys.map_values(|key: PartitionKey| fresh_entry(key))
}

/// Calls `rdkafka::TopicPartitionList::new`: the list that it returns is empty.
#[verifier::external_body]
pub(crate) fn new_list() -> (list: TopicPartitionList)
    ensures
        listed(list) == Seq::<OffsetView>::empty(),
        names_are_text(list),
{
    TopicPartitionList::new()
}

/// Calls `rdkafka::TopicPartitionList::add_partition`, which puts one entry behind the others.
/// The entry has the topic and partition given, no offset yet and no error, and the other entries
/// stay as they are. The client keeps names as C strings and panics on one with a NUL character.
#[verifier::external_body]
pub(crate) fn add_partition(list: &mut TopicPartitionList, topic: &str, partition: i32)
    requires
        listed(*old(list)).len() < LIST_LIMIT,
        !topic@.contains('\0'),
    ensures
        listed(*final(list)) == listed(*old(list)).push(fresh_entry((topic@, partition as int))),
        names_are_text(*final(list)) == names_are_text(*old(list)),
{
    list.add_partition(topic, partition);
}

/// Calls `rdkafka::TopicPartitionList::count`: the number of entries of the list.
#[verifier::external_body]
pub(crate) fn count(list: &TopicPartitionList) -> (n: usize)
    ensures
        n == listed(*list).len(),
{
    list.count()
}

/// Calls `rdkafka::TopicPartitionList::elements` and reads the topic, the partition and the offset
/// of each element, and whether it carries an error: the entries of the list, in their order. The
/// client panics on a topic name that is not text.
#[verifier::external_body]
pub(crate) fn elements(list: &TopicPartitionList) -> (entries: Vec<PartitionOffset>)
    requires
        names_are_text(*list),
    ensures
        offset_views(entries@) == listed(*list),
{
    let convert = |offset: rdkafka::Offset| match offset {
        rdkafka::Offset::Beginning => Offset::Beginning,
        rdkafka::Offset::End => Offset::End,
        rdkafka::Offset::Stored => Offset::Stored,
        rdkafka::Offset::Invalid => Offset::Invalid,
        rdkafka::Offset::Offset(n) => Offset::Offset(n),
        rdkafka::Offset::OffsetTail(n) => Offset::OffsetTail(n),
    };
    list.elements().iter().map(|e| PartitionOffset {
        topic: e.topic().to_string(),
        partition: e.partition(),
        offset: convert(e.offset()),
        failed: e.error().is_err(),
    }).collect()
}

} // verus!
