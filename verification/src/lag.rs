//! Which partitions and groups count, and how far behind a group is.

use vstd::prelude::*;

use crate::model::{
    group_views, keys_of, lag_views, offset_views, texts, topic_views, GroupListing, GroupView,
    LagView, Offset, OffsetView, PartitionKey, PartitionLag, PartitionOffset, TopicMetadata,
    TopicPartition, TopicView,
};
use crate::watermarks::HighWaterMarks;

verus! {

/// The group id under which the check itself connects.
pub const CHECK_GROUP_ID: &'static str = "antithesis-drain-check";

/// The state of a group whose members are settled.
pub const STABLE: &'static str = "Stable";

/// Kafka's internal topics and groups have names that start with an underscore.
pub open spec fn is_internal(name: Seq<char>) -> bool {
    name.len() > 0 && name[0] == '_'
}

/// A group counts when it is not internal, not the check's own, and stable.
pub open spec fn is_counted(group: GroupView) -> bool {
    &&& !is_internal(group.name)
    &&& group.name != CHECK_GROUP_ID@
    &&& group.state == STABLE@
}

/// True for the name of an internal topic or group.
pub fn has_internal_name(name: &String) -> (internal: bool)
    ensures
        internal == is_internal(name@),
{
    !name.as_str().is_empty() && name.as_str().get_char(0) == '_'
}

/// True when the lag of a group counts.
pub fn counts_group(group: &GroupListing) -> (counts: bool)
    ensures
        counts == is_counted(group@),
{
    let own: String = CHECK_GROUP_ID.to_owned();
    let stable: String = STABLE.to_owned();
    !has_internal_name(&group.name) && !(group.name == own) && group.state == stable
}

/// The names of the groups that count, in the order of the group list.
pub open spec fn counted_names(groups: Seq<GroupView>) -> Seq<Seq<char>>
    decreases groups.len(),
{
    if groups.len() == 0 {
        Seq::empty()
    } else if is_counted(groups.last()) {
        counted_names(groups.drop_last()).push(groups.last().name)
    } else {
        counted_names(groups.drop_last())
    }
}

/// Lists the names of the groups that count.
pub fn counted_groups(groups: &Vec<GroupListing>) -> (names: Vec<String>)
    ensures
        texts(names@) == counted_names(group_views(groups@)),
{
    let mut names: Vec<String> = Vec::new();
    let ghost views = group_views(groups@);
    let mut i: usize = 0;
    assert(texts(names@) =~= counted_names(views.take(0)));
    while i < groups.len()
        invariant
            i <= groups@.len(),
            views == group_views(groups@),
            texts(names@) == counted_names(views.take(i as int)),
        decreases groups@.len() - i,
    {
        assert(views.take(i + 1).drop_last() =~= views.take(i as int));
        assert(views.take(i + 1).last() == groups@[i as int]@);
        if counts_group(&groups[i]) {
            let ghost so_far = names@;
            let name = groups[i].name.clone();
            names.push(name);
            assert(texts(names@) =~= texts(so_far).push(name@));
        }
        i = i + 1;
    }
    assert(views.take(i as int) =~= views);
    names
}

/// The partitions of one topic, in the order of the metadata.
pub open spec fn topic_keys(topic: TopicView) -> Seq<PartitionKey> {
    topic.partitions.map_values(|p: i32| (topic.name, p as int))
}

/// The partitions of all topics that are not internal, in the order of the metadata.
pub open spec fn application_keys(topics: Seq<TopicView>) -> Seq<PartitionKey>
    decreases topics.len(),
{
    if topics.len() == 0 {
        Seq::empty()
    } else if is_internal(topics.last().name) {
        application_keys(topics.drop_last())
    } else {
        application_keys(topics.drop_last()) + topic_keys(topics.last())
    }
}

/// Lists the partitions of all topics that are not internal.
pub fn application_partitions(topics: &Vec<TopicMetadata>) -> (partitions: Vec<TopicPartition>)
    ensures
        keys_of(partitions@) == application_keys(topic_views(topics@)),
{
    let mut partitions: Vec<TopicPartition> = Vec::new();
    let ghost views = topic_views(topics@);
    let mut i: usize = 0;
    assert(keys_of(partitions@) =~= application_keys(views.take(0)));
    while i < topics.len()
        invariant
            i <= topics@.len(),
            views == topic_views(topics@),
            keys_of(partitions@) == application_keys(views.take(i as int)),
        decreases topics@.len() - i,
    {
        let topic = &topics[i];
        assert(views.take(i + 1).drop_last() =~= views.take(i as int));
        assert(views.take(i + 1).last() == topic@);
        if !has_internal_name(&topic.name) {
            let ghost before = keys_of(partitions@);
            let ghost keys = topic_keys(topic@);
            let mut j: usize = 0;
            assert(before + keys.take(0) =~= before);
            while j < topic.partitions.len()
                invariant
                    j <= topic.partitions@.len(),
                    keys == topic_keys(topic@),
                    keys_of(partitions@) == before + keys.take(j as int),
                decreases topic.partitions@.len() - j,
            {
                let partition = TopicPartition {
                    topic: topic.name.clone(),
                    partition: topic.partitions[j],
                };
                let ghost so_far = partitions@;
                partitions.push(partition);
                assert(keys_of(partitions@) =~= keys_of(so_far).push(partition@));
                assert(keys.take(j + 1) =~= keys.take(j as int).push(partition@));
                assert(keys_of(partitions@) =~= before + keys.take(j + 1));
                j = j + 1;
            }
            assert(keys.take(j as int) =~= keys);
        }
        i = i + 1;
    }
    assert(views.take(i as int) =~= views);
    partitions
}

/// The high-water marks known after asking for those of `keys` in order, where each answer is
/// the mark or `None` when it could not be read.
pub open spec fn recorded_marks(
    keys: Seq<PartitionKey>,
    answers: Seq<Option<int>>,
) -> Map<PartitionKey, int>
    decreases answers.len(),
{
    if answers.len() == 0 {
        Map::empty()
    } else {
        let earlier = recorded_marks(keys, answers.drop_last());
        match answers.last() {
            Some(high) => earlier.insert(keys[answers.len() - 1], high),
            None => earlier,
        }
    }
}

/// The difference between a partition's mark and a committed offset, where both are known.
pub open spec fn distance(marks: Map<PartitionKey, int>, offset: OffsetView) -> Option<int> {
    match offset.offset {
        Offset::Offset(committed) => if marks.contains_key(offset.key) {
            Some(marks[offset.key] - committed)
        } else {
            None
        },
        _ => None,
    }
}

/// The report on one offset of a group: there is one when the group has committed the offset,
/// the partition's mark is known, and the mark is ahead.
pub open spec fn lag_entry(
    group: Seq<char>,
    marks: Map<PartitionKey, int>,
    offset: OffsetView,
) -> Option<LagView> {
    match offset.offset {
        Offset::Offset(committed) => if marks.contains_key(offset.key) && marks[offset.key]
            > committed {
            Some(
                LagView {
                    group_id: group,
                    key: offset.key,
                    committed_offset: committed as int,
                    high_water_mark: marks[offset.key],
                    lag: marks[offset.key] - committed,
                },
            )
        } else {
            None
        },
        _ => None,
    }
}

/// The reports on all offsets of a group, in their order.
pub open spec fn group_lags(
    group: Seq<char>,
    marks: Map<PartitionKey, int>,
    offsets: Seq<OffsetView>,
) -> Seq<LagView>
    decreases offsets.len(),
{
    if offsets.len() == 0 {
        Seq::empty()
    } else {
        let earlier = group_lags(group, marks, offsets.drop_last());
        match lag_entry(group, marks, offsets.last()) {
            Some(entry) => earlier.push(entry),
            None => earlier,
        }
    }
}

/// The group has committed this offset, but the mark of its partition is not known.
pub open spec fn lacks_mark(marks: Map<PartitionKey, int>, offset: OffsetView) -> bool {
    offset.offset is Offset && !marks.contains_key(offset.key)
}

/// The partitions for which a group has committed an offset but no mark is known, in the order
/// of the offsets.
pub open spec fn unmarked_keys(
    marks: Map<PartitionKey, int>,
    offsets: Seq<OffsetView>,
) -> Seq<PartitionKey>
    decreases offsets.len(),
{
    if offsets.len() == 0 {
        Seq::empty()
    } else if lacks_mark(marks, offsets.last()) {
        unmarked_keys(marks, offsets.drop_last()).push(offsets.last().key)
    } else {
        unmarked_keys(marks, offsets.drop_last())
    }
}

/// Lists the partitions for which a group has committed an offset but no mark is known.
pub fn unmarked_partitions(marks: &HighWaterMarks, offsets: &Vec<PartitionOffset>) -> (partitions:
    Vec<TopicPartition>)
    ensures
        keys_of(partitions@) == unmarked_keys(marks@, offset_views(offsets@)),
{
    let mut partitions: Vec<TopicPartition> = Vec::new();
    let ghost views = offset_views(offsets@);
    let mut i: usize = 0;
    assert(keys_of(partitions@) =~= unmarked_keys(marks@, views.take(0)));
    while i < offsets.len()
        invariant
            i <= offsets@.len(),
            views == offset_views(offsets@),
            keys_of(partitions@) == unmarked_keys(marks@, views.take(i as int)),
        decreases offsets@.len() - i,
    {
        let entry = &offsets[i];
        assert(views.take(i + 1).drop_last() =~= views.take(i as int));
        assert(views.take(i + 1).last() == entry@);
        if let Offset::Offset(_) = entry.offset {
            if marks.get(&entry.topic, entry.partition).is_none() {
                let partition = TopicPartition {
                    topic: entry.topic.clone(),
                    partition: entry.partition,
                };
                let ghost so_far = partitions@;
                partitions.push(partition);
                assert(keys_of(partitions@) =~= keys_of(so_far).push(partition@));
            }
        }
        i = i + 1;
    }
    assert(views.take(i as int) =~= views);
    partitions
}

/// Tells whether a partition is among those listed.
pub fn lists_partition(
    partitions: &Vec<TopicPartition>,
    topic: &String,
    partition: i32,
) -> (found: bool)
    ensures
        found == keys_of(partitions@).contains((topic@, partition as int)),
{
    let ghost keys = keys_of(partitions@);
    let ghost key: PartitionKey = (topic@, partition as int);
    let mut i: usize = 0;
    while i < partitions.len()
        invariant
            i <= partitions@.len(),
            keys == keys_of(partitions@),
            key == (topic@, partition as int),
            forall|j: int| 0 <= j < i ==> #[trigger] keys[j] != key,
        decreases partitions@.len() - i,
    {
        assert(keys[i as int] == partitions@[i as int]@);
        if partitions[i].partition == partition && partitions[i].topic == *topic {
            return true;
        }
        i = i + 1;
    }
    false
}

/// Whether the group is behind on this partition, one of `keys`, cannot be told: its offset could
/// not be read, or it has committed one and there is no mark to hold it against.
pub open spec fn is_unjudged(
    keys: Seq<PartitionKey>,
    marks: Map<PartitionKey, int>,
    offset: OffsetView,
) -> bool {
    keys.contains(offset.key) && (offset.failed || lacks_mark(marks, offset))
}

/// One of a group's offsets cannot be judged.
pub open spec fn has_unjudged(
    keys: Seq<PartitionKey>,
    marks: Map<PartitionKey, int>,
    offsets: Seq<OffsetView>,
) -> bool {
    exists|i: int| 0 <= i < offsets.len() && is_unjudged(keys, marks, #[trigger] offsets[i])
}

/// Tells whether one of a group's offsets cannot be judged.
pub fn leaves_unjudged(
    partitions: &Vec<TopicPartition>,
    marks: &HighWaterMarks,
    offsets: &Vec<PartitionOffset>,
) -> (found: bool)
    ensures
        found == has_unjudged(keys_of(partitions@), marks@, offset_views(offsets@)),
{
    let ghost keys = keys_of(partitions@);
    let ghost views = offset_views(offsets@);
    let mut i: usize = 0;
    while i < offsets.len()
        invariant
            i <= offsets@.len(),
            keys == keys_of(partitions@),
            views == offset_views(offsets@),
            forall|j: int| 0 <= j < i ==> !is_unjudged(keys, marks@, #[trigger] views[j]),
        decreases offsets@.len() - i,
    {
        let entry = &offsets[i];
        assert(views[i as int] == entry@);
        let unmarked = match entry.offset {
            Offset::Offset(_) => marks.get(&entry.topic, entry.partition).is_none(),
            _ => false,
        };
        assert(unmarked == lacks_mark(marks@, entry@));
        if (entry.failed || unmarked) && lists_partition(
            partitions,
            &entry.topic,
            entry.partition,
        ) {
            assert(is_unjudged(keys, marks@, views[i as int]));
            return true;
        }
        i = i + 1;
    }
    false
}

/// A group's answer leaves something out that could be lag: the offsets could not be read at all,
/// or one of them cannot be judged.
pub open spec fn read_missed(
    keys: Seq<PartitionKey>,
    marks: Map<PartitionKey, int>,
    answer: Option<Seq<OffsetView>>,
) -> bool {
    match answer {
        Some(offsets) => has_unjudged(keys, marks, offsets),
        None => true,
    }
}

/// Some group's answer leaves something out that could be lag.
pub open spec fn reads_missed(
    keys: Seq<PartitionKey>,
    marks: Map<PartitionKey, int>,
    answers: Seq<Option<Seq<OffsetView>>>,
) -> bool {
    exists|n: int| 0 <= n < answers.len() && read_missed(keys, marks, #[trigger] answers[n])
}

/// Every difference that the offsets give rise to is a 64-bit signed integer.
pub open spec fn distances_fit(
    marks: Map<PartitionKey, int>,
    offsets: Seq<OffsetView>,
) -> bool {
    forall|i: int|
        0 <= i < offsets.len() ==> match distance(marks, #[trigger] offsets[i]) {
            Some(d) => i64::MIN <= d <= i64::MAX,
            None => true,
        }
}

/// Tells whether the lag of each offset can be computed in 64 bits.
pub fn lags_computable(marks: &HighWaterMarks, offsets: &Vec<PartitionOffset>) -> (fit: bool)
    ensures
        fit == distances_fit(marks@, offset_views(offsets@)),
{
    let ghost views = offset_views(offsets@);
    let mut i: usize = 0;
    while i < offsets.len()
        invariant
            i <= offsets@.len(),
            views == offset_views(offsets@),
            forall|j: int|
                0 <= j < i ==> match distance(marks@, #[trigger] views[j]) {
                    Some(d) => i64::MIN <= d <= i64::MAX,
                    None => true,
                },
        decreases offsets@.len() - i,
    {
        let entry = &offsets[i];
        assert(views[i as int] == entry@);
        if let Offset::Offset(committed) = entry.offset {
            if let Some(high) = marks.get(&entry.topic, entry.partition) {
                if high.checked_sub(committed).is_none() {
                    assert(distance(marks@, views[i as int]) == Some(high - committed));
                    return false;
                }
            }
        }
        i = i + 1;
    }
    true
}

/// Reports on one offset of a group.
pub fn judge_offset(group: &String, marks: &HighWaterMarks, entry: &PartitionOffset) -> (report:
    Option<PartitionLag>)
    requires
        distance(marks@, entry@) matches Some(d) ==> i64::MIN <= d <= i64::MAX,
    ensures
        match report {
            Some(lag) => lag_entry(group@, marks@, entry@) == Some(lag@),
            None => lag_entry(group@, marks@, entry@) is None,
        },
{
    match entry.offset {
        Offset::Offset(committed_offset) => match marks.get(&entry.topic, entry.partition) {
            Some(high_water_mark) => {
                assert(distance(marks@, entry@) == Some(high_water_mark - committed_offset));
                let lag: i64 = high_water_mark - committed_offset;
                if lag > 0 {
                    Some(
                        PartitionLag {
                            group_id: group.clone(),
                            topic: entry.topic.clone(),
                            partition: entry.partition,
                            committed_offset,
                            high_water_mark,
                            lag,
                        },
                    )
                } else {
                    None
                }
            },
            None => None,
        },
        _ => None,
    }
}

/// Adds the reports on all offsets of a group to those of other groups.
pub fn append_group_lags(
    lags: &mut Vec<PartitionLag>,
    group: &String,
    marks: &HighWaterMarks,
    offsets: &Vec<PartitionOffset>,
)
    requires
        distances_fit(marks@, offset_views(offsets@)),
    ensures
        lag_views(final(lags)@) == lag_views(old(lags)@) + group_lags(
            group@,
            marks@,
            offset_views(offsets@),
        ),
{
    let ghost views = offset_views(offsets@);
    let ghost before = lag_views(lags@);
    let mut i: usize = 0;
    assert(before + group_lags(group@, marks@, views.take(0)) =~= before);
    while i < offsets.len()
        invariant
            i <= offsets@.len(),
            views == offset_views(offsets@),
            distances_fit(marks@, views),
            lag_views(lags@) == before + group_lags(group@, marks@, views.take(i as int)),
        decreases offsets@.len() - i,
    {
        assert(views[i as int] == offsets@[i as int]@);
        assert(views.take(i + 1).drop_last() =~= views.take(i as int));
        assert(views.take(i + 1).last() == views[i as int]);
        let ghost so_far = lags@;
        if let Some(lag) = judge_offset(group, marks, &offsets[i]) {
            lags.push(lag);
            assert(lag_views(lags@) =~= lag_views(so_far).push(lag@));
        }
        assert(lag_views(lags@) =~= before + group_lags(group@, marks@, views.take(i + 1)));
        i = i + 1;
    }
    assert(views.take(i as int) =~= views);
}

/// The reports on all groups asked so far, in their order: each answer is a group's offsets, or
/// `None` when they could not be read.
pub open spec fn collected_lags(
    groups: Seq<Seq<char>>,
    marks: Map<PartitionKey, int>,
    answers: Seq<Option<Seq<OffsetView>>>,
) -> Seq<LagView>
    decreases answers.len(),
{
    if answers.len() == 0 {
        Seq::empty()
    } else {
        let earlier = collected_lags(groups, marks, answers.drop_last());
        match answers.last() {
            Some(offsets) => earlier + group_lags(groups[answers.len() - 1], marks, offsets),
            None => earlier,
        }
    }
}

/// The lag of a cluster's consumers. `topics` and `groups` are what the cluster lists,
/// `watermarks` answers for the application partitions in order, and `committed` answers for the
/// groups that count in order.
pub open spec fn consumer_lag(
    topics: Seq<TopicView>,
    watermarks: Seq<Option<int>>,
    groups: Seq<GroupView>,
    committed: Seq<Option<Seq<OffsetView>>>,
) -> Seq<LagView> {
    collected_lags(
        counted_names(groups),
        recorded_marks(application_keys(topics), watermarks),
        committed,
    )
}

/// The sum of the lags of a report.
pub open spec fn total_lag(lags: Seq<LagView>) -> int
    decreases lags.len(),
{
    if lags.len() == 0 {
        0
    } else {
        total_lag(lags.drop_last()) + lags.last().lag
    }
}

/// Adding the lags up, first to last, stays within 64 bits all the way.
pub open spec fn total_fits(lags: Seq<LagView>) -> bool {
    forall|n: int|
        0 <= n <= lags.len() ==> i64::MIN <= total_lag(#[trigger] lags.take(n)) <= i64::MAX
}

/// Adds the lags of a report up; `None` when a sum on the way leaves 64 bits.
pub fn checked_sum(lags: &Vec<PartitionLag>) -> (sum: Option<i64>)
    ensures
        match sum {
            Some(total) => total_fits(lag_views(lags@)) && total == total_lag(lag_views(lags@)),
            None => !total_fits(lag_views(lags@)),
        },
{
    let ghost views = lag_views(lags@);
    let mut total: i64 = 0;
    let mut i: usize = 0;
    assert(views.take(0).len() == 0);
    while i < lags.len()
        invariant
            i <= lags@.len(),
            views == lag_views(lags@),
            total == total_lag(views.take(i as int)),
            forall|n: int|
                0 <= n <= i ==> i64::MIN <= total_lag(#[trigger] views.take(n)) <= i64::MAX,
        decreases lags@.len() - i,
    {
        assert(views.take(i + 1).drop_last() =~= views.take(i as int));
        assert(views.take(i + 1).last() == lags@[i as int]@);
        assert(total_lag(views.take(i + 1)) == total + lags@[i as int].lag);
        match total.checked_add(lags[i].lag) {
            Some(next) => {
                total = next;
            },
            None => {
                return None;
            },
        }
        i = i + 1;
    }
    assert(views.take(i as int) =~= views);
    Some(total)
}

/// Adds the lags of a report up.
pub fn sum_lags(lags: &Vec<PartitionLag>) -> (total: i64)
    requires
        total_fits(lag_views(lags@)),
    ensures
        total == total_lag(lag_views(lags@)),
{
    checked_sum(lags).unwrap()
}

} // verus!
