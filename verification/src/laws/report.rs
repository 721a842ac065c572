//! What a report of consumer lag says about the cluster.

use vstd::prelude::*;

use crate::lag::{
    application_keys, collected_lags, consumer_lag, counted_names, group_lags, has_unjudged,
    is_counted, is_internal, is_unjudged, lacks_mark, lag_entry, read_missed, reads_missed,
    recorded_marks, topic_keys, total_fits, total_lag, unmarked_keys,
};
use crate::model::{GroupView, LagView, Offset, OffsetView, PartitionKey, TopicView};

verus! {

/// `key` is a partition that the topics list, of a topic that is not internal.
pub open spec fn is_application_key(topics: Seq<TopicView>, key: PartitionKey) -> bool {
    exists|t: int, p: int|
        #![trigger topics[t].partitions[p]]
        {
            &&& 0 <= t < topics.len()
            &&& !is_internal(topics[t].name)
            &&& 0 <= p < topics[t].partitions.len()
            &&& key == (topics[t].name, topics[t].partitions[p] as int)
        }
}

/// The application partitions are exactly the partitions of the topics that are not internal.
pub proof fn application_keys_are_the_partitions_of_other_topics(
    topics: Seq<TopicView>,
    key: PartitionKey,
)
    ensures
        application_keys(topics).contains(key) <==> is_application_key(topics, key),
    decreases topics.len(),
{
    if topics.len() > 0 {
        let rest = topics.drop_last();
        let last = topics.last();
        let earlier = application_keys(rest);
        application_keys_are_the_partitions_of_other_topics(rest, key);
        if application_keys(topics).contains(key) {
            let i = application_keys(topics).index_of(key);
            if i < earlier.len() {
                assert(earlier[i] == key);
                let (t, p) = choose|t: int, p: int|
                    #![trigger rest[t].partitions[p]]
                    {
                        &&& 0 <= t < rest.len()
                        &&& !is_internal(rest[t].name)
                        &&& 0 <= p < rest[t].partitions.len()
                        &&& key == (rest[t].name, rest[t].partitions[p] as int)
                    };
                assert(topics[t].partitions[p] == rest[t].partitions[p]);
            } else {
                let p = i - earlier.len();
                assert(topic_keys(last)[p] == key);
                assert(topics[topics.len() - 1].partitions[p] as int == key.1);
            }
        }
        if is_application_key(topics, key) {
            let (t, p) = choose|t: int, p: int|
                #![trigger topics[t].partitions[p]]
                {
                    &&& 0 <= t < topics.len()
                    &&& !is_internal(topics[t].name)
                    &&& 0 <= p < topics[t].partitions.len()
                    &&& key == (topics[t].name, topics[t].partitions[p] as int)
                };
            if t < rest.len() {
                assert(rest[t].partitions[p] == topics[t].partitions[p]);
                let i = earlier.index_of(key);
                assert(application_keys(topics)[i] == key);
            } else {
                assert(topic_keys(last)[p] == key);
                assert(application_keys(topics)[earlier.len() + p] == key);
            }
        }
    }
}

/// The groups asked for their offsets are exactly those that are not internal, not the check's
/// own, and stable.
pub proof fn counted_names_are_the_stable_groups(groups: Seq<GroupView>, name: Seq<char>)
    ensures
        counted_names(groups).contains(name) <==> exists|i: int|
            0 <= i < groups.len() && is_counted(#[trigger] groups[i]) && groups[i].name == name,
    decreases groups.len(),
{
    if groups.len() > 0 {
        let rest = groups.drop_last();
        let earlier = counted_names(rest);
        counted_names_are_the_stable_groups(rest, name);
        if counted_names(groups).contains(name) {
            let i = counted_names(groups).index_of(name);
            if i < earlier.len() {
                assert(earlier[i] == name);
                let g = choose|g: int|
                    0 <= g < rest.len() && is_counted(#[trigger] rest[g]) && rest[g].name == name;
                assert(is_counted(groups[g]) && groups[g].name == name);
            } else {
                assert(is_counted(groups[groups.len() - 1]));
            }
        }
        if exists|i: int|
            0 <= i < groups.len() && is_counted(#[trigger] groups[i]) && groups[i].name == name {
            let g = choose|g: int|
                0 <= g < groups.len() && is_counted(#[trigger] groups[g]) && groups[g].name == name;
            if g < rest.len() {
                assert(is_counted(rest[g]) && rest[g].name == name);
                let i = earlier.index_of(name);
                assert(counted_names(groups)[i] == name);
            } else {
                assert(counted_names(groups)[earlier.len() as int] == name);
            }
        }
    }
}

/// A partition has a known mark exactly when some answer for it gave one.
pub proof fn marks_are_those_that_were_read(
    keys: Seq<PartitionKey>,
    answers: Seq<Option<int>>,
    key: PartitionKey,
)
    ensures
        recorded_marks(keys, answers).contains_key(key) <==> exists|i: int|
            0 <= i < answers.len() && (#[trigger] answers[i]) is Some && keys[i] == key,
    decreases answers.len(),
{
    if answers.len() > 0 {
        let rest = answers.drop_last();
        marks_are_those_that_were_read(keys, rest, key);
        let last = answers.len() - 1;
        if recorded_marks(keys, answers).contains_key(key) {
            if answers[last] is Some && keys[last] == key {
            } else {
                let i = choose|i: int|
                    0 <= i < rest.len() && (#[trigger] rest[i]) is Some && keys[i] == key;
                assert(answers[i] is Some && keys[i] == key);
            }
        }
        if exists|i: int|
            0 <= i < answers.len() && (#[trigger] answers[i]) is Some && keys[i] == key {
            let i = choose|i: int|
                0 <= i < answers.len() && (#[trigger] answers[i]) is Some && keys[i] == key;
            if i < last {
                assert(rest[i] is Some && keys[i] == key);
            }
        }
    }
}

/// A partition's mark is the last one that was read for it.
pub proof fn the_last_mark_counts(keys: Seq<PartitionKey>, answers: Seq<Option<int>>, i: int)
    requires
        0 <= i < answers.len(),
        answers[i] is Some,
        forall|j: int|
            i < j < answers.len() && keys[j] == keys[i] ==> (#[trigger] answers[j]) is None,
    ensures
        recorded_marks(keys, answers)[keys[i]] == answers[i]->0,
    decreases answers.len(),
{
    let last = answers.len() - 1;
    if i < last {
        let rest = answers.drop_last();
        assert forall|j: int| i < j < rest.len() && keys[j] == keys[i] implies (
        #[trigger] rest[j]) is None by {
            assert(answers[j] == rest[j]);
        }
        the_last_mark_counts(keys, rest, i);
        assert(keys[last] == keys[i] ==> answers[last] is None);
    }
}

/// Group number `n` is asked, and its answer holds an offset at `j`.
pub open spec fn has_offset(committed: Seq<Option<Seq<OffsetView>>>, n: int, j: int) -> bool {
    &&& 0 <= n < committed.len()
    &&& committed[n] is Some
    &&& 0 <= j < committed[n]->0.len()
}

proof fn lemma_group_entry_origin(
    group: Seq<char>,
    marks: Map<PartitionKey, int>,
    offsets: Seq<OffsetView>,
    i: int,
) -> (j: int)
    requires
        0 <= i < group_lags(group, marks, offsets).len(),
    ensures
        0 <= j < offsets.len(),
        lag_entry(group, marks, offsets[j]) == Some(group_lags(group, marks, offsets)[i]),
    decreases offsets.len(),
{
    let rest = offsets.drop_last();
    if i < group_lags(group, marks, rest).len() {
        lemma_group_entry_origin(group, marks, rest, i)
    } else {
        offsets.len() - 1
    }
}

proof fn lemma_entry_origin(
    groups: Seq<Seq<char>>,
    marks: Map<PartitionKey, int>,
    committed: Seq<Option<Seq<OffsetView>>>,
    i: int,
) -> (place: (int, int))
    requires
        0 <= i < collected_lags(groups, marks, committed).len(),
    ensures
        has_offset(committed, place.0, place.1),
        lag_entry(groups[place.0], marks, committed[place.0]->0[place.1]) == Some(
            collected_lags(groups, marks, committed)[i],
        ),
    decreases committed.len(),
{
    let rest = committed.drop_last();
    let earlier = collected_lags(groups, marks, rest);
    if i < earlier.len() {
        lemma_entry_origin(groups, marks, rest, i)
    } else {
        let n = committed.len() - 1;
        let j = lemma_group_entry_origin(groups[n], marks, committed[n]->0, i - earlier.len());
        (n, j)
    }
}

/// Every entry of a report is about a group that counts and an application partition with a
/// known mark. It shows an offset that the group has committed, and that the mark is ahead of
/// the offset by the lag.
pub proof fn reported_lag_is_real(
    topics: Seq<TopicView>,
    watermarks: Seq<Option<int>>,
    groups: Seq<GroupView>,
    committed: Seq<Option<Seq<OffsetView>>>,
    i: int,
)
    requires
        watermarks.len() <= application_keys(topics).len(),
        committed.len() <= counted_names(groups).len(),
        0 <= i < consumer_lag(topics, watermarks, groups, committed).len(),
    ensures
        ({
            let entry = consumer_lag(topics, watermarks, groups, committed)[i];
            let marks = recorded_marks(application_keys(topics), watermarks);
            &&& entry.lag == entry.high_water_mark - entry.committed_offset
            &&& entry.lag > 0
            &&& is_application_key(topics, entry.key)
            &&& marks.contains_key(entry.key)
            &&& entry.high_water_mark == marks[entry.key]
            &&& exists|g: int|
                0 <= g < groups.len() && is_counted(#[trigger] groups[g]) && groups[g].name
                    == entry.group_id
            &&& exists|n: int, j: int|
                {
                    &&& #[trigger] has_offset(committed, n, j)
                    &&& counted_names(groups)[n] == entry.group_id
                    &&& committed[n]->0[j].key == entry.key
                    &&& committed[n]->0[j].offset matches Offset::Offset(c)
                        && c == entry.committed_offset
                }
        }),
{
    let keys = application_keys(topics);
    let names = counted_names(groups);
    let marks = recorded_marks(keys, watermarks);
    let entry = consumer_lag(topics, watermarks, groups, committed)[i];
    let (n, j) = lemma_entry_origin(names, marks, committed, i);
    assert(has_offset(committed, n, j));
    assert(names[n] == entry.group_id);
    assert(names.contains(entry.group_id));
    counted_names_are_the_stable_groups(groups, entry.group_id);
    marks_are_those_that_were_read(keys, watermarks, entry.key);
    let k = choose|k: int|
        0 <= k < watermarks.len() && (#[trigger] watermarks[k]) is Some && keys[k] == entry.key;
    assert(keys[k] == entry.key);
    assert(keys.contains(entry.key));
    application_keys_are_the_partitions_of_other_topics(topics, entry.key);
}

proof fn lemma_group_entry_kept(
    group: Seq<char>,
    marks: Map<PartitionKey, int>,
    offsets: Seq<OffsetView>,
    j: int,
)
    requires
        0 <= j < offsets.len(),
        lag_entry(group, marks, offsets[j]) is Some,
    ensures
        group_lags(group, marks, offsets).contains(lag_entry(group, marks, offsets[j])->0),
    decreases offsets.len(),
{
    let rest = offsets.drop_last();
    let earlier = group_lags(group, marks, rest);
    let all = group_lags(group, marks, offsets);
    let entry = lag_entry(group, marks, offsets[j])->0;
    if j < rest.len() {
        lemma_group_entry_kept(group, marks, rest, j);
        let i = earlier.index_of(entry);
        assert(all[i] == entry);
    } else {
        assert(all[earlier.len() as int] == entry);
    }
}

proof fn lemma_entry_kept(
    groups: Seq<Seq<char>>,
    marks: Map<PartitionKey, int>,
    committed: Seq<Option<Seq<OffsetView>>>,
    n: int,
    j: int,
)
    requires
        has_offset(committed, n, j),
        lag_entry(groups[n], marks, committed[n]->0[j]) is Some,
    ensures
        collected_lags(groups, marks, committed).contains(
            lag_entry(groups[n], marks, committed[n]->0[j])->0,
        ),
    decreases committed.len(),
{
    let rest = committed.drop_last();
    let earlier = collected_lags(groups, marks, rest);
    let all = collected_lags(groups, marks, committed);
    let entry = lag_entry(groups[n], marks, committed[n]->0[j])->0;
    if n < rest.len() {
        assert(has_offset(rest, n, j));
        lemma_entry_kept(groups, marks, rest, n, j);
        let i = earlier.index_of(entry);
        assert(all[i] == entry);
    } else {
        lemma_group_entry_kept(groups[n], marks, committed[n]->0, j);
        let own = group_lags(groups[n], marks, committed[n]->0);
        let i = own.index_of(entry);
        assert(all[earlier.len() + i] == entry);
    }
}

/// No lag goes missing: wherever a group that counts has committed an offset behind the known
/// mark of a partition, the report has an entry that says so.
pub proof fn real_lag_is_reported(
    topics: Seq<TopicView>,
    watermarks: Seq<Option<int>>,
    groups: Seq<GroupView>,
    committed: Seq<Option<Seq<OffsetView>>>,
    n: int,
    j: int,
)
    requires
        has_offset(committed, n, j),
        is_behind(recorded_marks(application_keys(topics), watermarks), committed[n]->0[j]),
    ensures
        ({
            let marks = recorded_marks(application_keys(topics), watermarks);
            let offset = committed[n]->0[j];
            let committed_offset = offset.offset->Offset_0 as int;
            consumer_lag(topics, watermarks, groups, committed).contains(
                LagView {
                    group_id: counted_names(groups)[n],
                    key: offset.key,
                    committed_offset,
                    high_water_mark: marks[offset.key],
                    lag: marks[offset.key] - committed_offset,
                },
            )
        }),
{
    lemma_entry_kept(
        counted_names(groups),
        recorded_marks(application_keys(topics), watermarks),
        committed,
        n,
        j,
    );
}

/// The offset is one that was committed, and a known mark is ahead of it.
pub open spec fn is_behind(marks: Map<PartitionKey, int>, offset: OffsetView) -> bool {
    offset.offset matches Offset::Offset(c) && marks.contains_key(offset.key) && marks[offset.key]
        > c
}

/// The report is empty exactly when every offset that a group has committed has reached the
/// known mark of its partition.
pub proof fn empty_report_means_caught_up(
    topics: Seq<TopicView>,
    watermarks: Seq<Option<int>>,
    groups: Seq<GroupView>,
    committed: Seq<Option<Seq<OffsetView>>>,
)
    ensures
        consumer_lag(topics, watermarks, groups, committed).len() == 0 <==> forall|n: int, j: int|
            #[trigger] has_offset(committed, n, j) ==> !is_behind(
                recorded_marks(application_keys(topics), watermarks),
                committed[n]->0[j],
            ),
{
    let names = counted_names(groups);
    let marks = recorded_marks(application_keys(topics), watermarks);
    let report = consumer_lag(topics, watermarks, groups, committed);
    if report.len() == 0 {
        assert forall|n: int, j: int| #[trigger] has_offset(committed, n, j) implies !is_behind(
            marks,
            committed[n]->0[j],
        ) by {
            if is_behind(marks, committed[n]->0[j]) {
                lemma_entry_kept(names, marks, committed, n, j);
            }
        }
    } else {
        let (n, j) = lemma_entry_origin(names, marks, committed, 0);
        assert(has_offset(committed, n, j) && is_behind(marks, committed[n]->0[j]));
    }
}

/// An offset for one of `keys` was read, and if the group has committed it, it has a known mark
/// and has reached it.
pub open spec fn has_reached(
    keys: Seq<PartitionKey>,
    marks: Map<PartitionKey, int>,
    offset: OffsetView,
) -> bool {
    keys.contains(offset.key) ==> {
        &&& !offset.failed
        &&& match offset.offset {
            Offset::Offset(c) => marks.contains_key(offset.key) && marks[offset.key] <= c,
            _ => true,
        }
    }
}

/// The offsets of every group were read, those for application partitions without an error, and
/// every offset that a group has committed for an application partition has a known mark and has
/// reached it.
pub open spec fn all_read_and_reached(
    topics: Seq<TopicView>,
    watermarks: Seq<Option<int>>,
    committed: Seq<Option<Seq<OffsetView>>>,
) -> bool {
    &&& forall|n: int| 0 <= n < committed.len() ==> (#[trigger] committed[n]) is Some
    &&& forall|n: int, j: int|
        #[trigger] has_offset(committed, n, j) ==> has_reached(
            application_keys(topics),
            recorded_marks(application_keys(topics), watermarks),
            committed[n]->0[j],
        )
}

/// The report is empty and no read was missed exactly when everything was read and every mark
/// is reached.
pub proof fn empty_report_with_nothing_missed_means_all_reached(
    topics: Seq<TopicView>,
    watermarks: Seq<Option<int>>,
    groups: Seq<GroupView>,
    committed: Seq<Option<Seq<OffsetView>>>,
)
    requires
        watermarks.len() <= application_keys(topics).len(),
    ensures
        consumer_lag(topics, watermarks, groups, committed).len() == 0 && !reads_missed(
            application_keys(topics),
            recorded_marks(application_keys(topics), watermarks),
            committed,
        ) <==> all_read_and_reached(topics, watermarks, committed),
{
    let keys = application_keys(topics);
    let marks = recorded_marks(keys, watermarks);
    let report = consumer_lag(topics, watermarks, groups, committed);
    empty_report_means_caught_up(topics, watermarks, groups, committed);
    if report.len() == 0 && !reads_missed(keys, marks, committed) {
        assert forall|n: int| 0 <= n < committed.len() implies (
        #[trigger] committed[n]) is Some by {
            assert(!read_missed(keys, marks, committed[n]));
        }
        assert forall|n: int, j: int| #[trigger] has_offset(committed, n, j) implies has_reached(
            keys,
            marks,
            committed[n]->0[j],
        ) by {
            let offsets = committed[n]->0;
            assert(!read_missed(keys, marks, committed[n]));
            assert(!is_unjudged(keys, marks, offsets[j]));
            assert(!is_behind(marks, offsets[j]));
        }
    }
    if all_read_and_reached(topics, watermarks, committed) {
        assert forall|n: int, j: int| #[trigger] has_offset(committed, n, j) implies !is_behind(
            marks,
            committed[n]->0[j],
        ) by {
            let key = committed[n]->0[j].key;
            assert(has_reached(keys, marks, committed[n]->0[j]));
            if marks.contains_key(key) {
                marks_are_those_that_were_read(keys, watermarks, key);
                let k = choose|k: int|
                    0 <= k < watermarks.len() && (#[trigger] watermarks[k]) is Some && keys[k]
                        == key;
                assert(keys[k] == key);
            }
        }
        assert forall|n: int| 0 <= n < committed.len() implies !read_missed(
            keys,
            marks,
            #[trigger] committed[n],
        ) by {
            let offsets = committed[n]->0;
            assert forall|j: int| 0 <= j < offsets.len() implies !is_unjudged(
                keys,
                marks,
                #[trigger] offsets[j],
            ) by {
                assert(has_offset(committed, n, j));
            }
        }
    }
}

/// The partitions listed as unmarked are exactly those for which the group has committed an
/// offset and no mark is known. An offset cannot be judged exactly when one of them is asked
/// about, or an offset that is asked about could not be read.
pub proof fn unmarked_keys_are_those_without_a_mark(
    keys: Seq<PartitionKey>,
    marks: Map<PartitionKey, int>,
    offsets: Seq<OffsetView>,
)
    ensures
        forall|key: PartitionKey| #[trigger]
            unmarked_keys(marks, offsets).contains(key) <==> exists|i: int|
                0 <= i < offsets.len() && lacks_mark(marks, #[trigger] offsets[i])
                    && offsets[i].key == key,
        has_unjudged(keys, marks, offsets) <==> {
            ||| exists|key: PartitionKey|
                #[trigger] unmarked_keys(marks, offsets).contains(key) && keys.contains(key)
            ||| exists|i: int|
                0 <= i < offsets.len() && (#[trigger] offsets[i]).failed && keys.contains(
                    offsets[i].key,
                )
        },
    decreases offsets.len(),
{
    let all = unmarked_keys(marks, offsets);
    if offsets.len() > 0 {
        let rest = offsets.drop_last();
        let earlier = unmarked_keys(marks, rest);
        unmarked_keys_are_those_without_a_mark(keys, marks, rest);
        assert forall|key: PartitionKey| #[trigger] all.contains(key) implies exists|i: int|
            0 <= i < offsets.len() && lacks_mark(marks, #[trigger] offsets[i]) && offsets[i].key
                == key by {
            let k = all.index_of(key);
            if k < earlier.len() {
                assert(earlier[k] == key);
                assert(earlier.contains(key));
                let i = choose|i: int|
                    0 <= i < rest.len() && lacks_mark(marks, #[trigger] rest[i]) && rest[i].key
                        == key;
                assert(offsets[i] == rest[i]);
            } else {
                assert(offsets[offsets.len() - 1].key == key);
            }
        }
        assert forall|i: int|
            0 <= i < offsets.len() && lacks_mark(
                marks,
                #[trigger] offsets[i],
            ) implies all.contains(offsets[i].key) by {
            if i < rest.len() {
                assert(rest[i] == offsets[i]);
                assert(earlier.contains(rest[i].key));
                let k = earlier.index_of(rest[i].key);
                assert(all[k] == offsets[i].key);
            } else {
                assert(all[earlier.len() as int] == offsets[i].key);
            }
        }
    }
}

/// No two entries are about the same group and partition.
pub open spec fn entries_distinct(report: Seq<LagView>) -> bool {
    forall|a: int, b: int|
        #![trigger report[a], report[b]]
        0 <= a < b < report.len() ==> report[a].group_id != report[b].group_id || report[a].key
            != report[b].key
}

/// No partition occurs twice among a group's offsets.
pub open spec fn offsets_distinct(offsets: Seq<OffsetView>) -> bool {
    forall|a: int, b: int|
        #![trigger offsets[a], offsets[b]]
        0 <= a < b < offsets.len() ==> offsets[a].key != offsets[b].key
}

proof fn lemma_group_entries_distinct(
    group: Seq<char>,
    marks: Map<PartitionKey, int>,
    offsets: Seq<OffsetView>,
)
    requires
        offsets_distinct(offsets),
    ensures
        entries_distinct(group_lags(group, marks, offsets)),
    decreases offsets.len(),
{
    if offsets.len() > 0 {
        let rest = offsets.drop_last();
        let earlier = group_lags(group, marks, rest);
        let all = group_lags(group, marks, offsets);
        assert(offsets_distinct(rest));
        lemma_group_entries_distinct(group, marks, rest);
        assert forall|a: int, b: int|
            #![trigger all[a], all[b]]
            0 <= a < b < all.len() implies all[a].group_id != all[b].group_id || all[a].key
            != all[b].key by {
            assert(all[a] == earlier[a]);
            if b < earlier.len() {
                assert(all[b] == earlier[b]);
            } else {
                let j = lemma_group_entry_origin(group, marks, rest, a);
                assert(rest[j] == offsets[j]);
                assert(offsets[j].key != offsets[offsets.len() - 1].key);
            }
        }
    }
}

proof fn lemma_entries_distinct(
    groups: Seq<Seq<char>>,
    marks: Map<PartitionKey, int>,
    committed: Seq<Option<Seq<OffsetView>>>,
)
    requires
        committed.len() <= groups.len(),
        groups.no_duplicates(),
        forall|n: int|
            0 <= n < committed.len() && (#[trigger] committed[n]) is Some ==> offsets_distinct(
                committed[n]->0,
            ),
    ensures
        entries_distinct(collected_lags(groups, marks, committed)),
    decreases committed.len(),
{
    if committed.len() > 0 {
        let rest = committed.drop_last();
        let last = committed.len() - 1;
        let earlier = collected_lags(groups, marks, rest);
        let all = collected_lags(groups, marks, committed);
        assert forall|n: int| 0 <= n < rest.len() && (#[trigger] rest[n]) is Some implies
            offsets_distinct(rest[n]->0) by {
            assert(rest[n] == committed[n]);
        }
        lemma_entries_distinct(groups, marks, rest);
        if committed[last] is Some {
            let own = group_lags(groups[last], marks, committed[last]->0);
            lemma_group_entries_distinct(groups[last], marks, committed[last]->0);
            assert forall|a: int, b: int|
                #![trigger all[a], all[b]]
                0 <= a < b < all.len() implies all[a].group_id != all[b].group_id || all[a].key
                != all[b].key by {
                if b < earlier.len() {
                    assert(all[a] == earlier[a] && all[b] == earlier[b]);
                } else if a >= earlier.len() {
                    assert(all[a] == own[a - earlier.len()]);
                    assert(all[b] == own[b - earlier.len()]);
                } else {
                    assert(all[a] == earlier[a]);
                    assert(all[b] == own[b - earlier.len()]);
                    let (n, j) = lemma_entry_origin(groups, marks, rest, a);
                    let m = lemma_group_entry_origin(
                        groups[last],
                        marks,
                        committed[last]->0,
                        b - earlier.len(),
                    );
                    assert(groups[n] != groups[last]);
                }
            }
        }
    }
}

/// A report has one entry for each group and partition: if no group is listed twice, and no
/// partition occurs twice among a group's offsets, no two entries are about the same group and
/// partition.
pub proof fn one_entry_per_group_and_partition(
    topics: Seq<TopicView>,
    watermarks: Seq<Option<int>>,
    groups: Seq<GroupView>,
    committed: Seq<Option<Seq<OffsetView>>>,
)
    requires
        committed.len() <= counted_names(groups).len(),
        counted_names(groups).no_duplicates(),
        forall|n: int|
            0 <= n < committed.len() && (#[trigger] committed[n]) is Some ==> offsets_distinct(
                committed[n]->0,
            ),
    ensures
        entries_distinct(consumer_lag(topics, watermarks, groups, committed)),
{
    lemma_entries_distinct(
        counted_names(groups),
        recorded_marks(application_keys(topics), watermarks),
        committed,
    );
}

/// Every entry shows lag.
pub open spec fn all_positive(report: Seq<LagView>) -> bool {
    forall|i: int| 0 <= i < report.len() ==> (#[trigger] report[i]).lag > 0
}

/// Where every entry shows lag, the total is at least the number of entries: it is 0 exactly
/// when there are none.
pub proof fn no_lag_in_total_means_no_entries(report: Seq<LagView>)
    requires
        all_positive(report),
    ensures
        total_lag(report) >= report.len(),
        total_lag(report) == 0 <==> report.len() == 0,
    decreases report.len(),
{
    if report.len() > 0 {
        let rest = report.drop_last();
        assert forall|i: int| 0 <= i < rest.len() implies (#[trigger] rest[i]).lag > 0 by {
            assert(rest[i] == report[i]);
        }
        no_lag_in_total_means_no_entries(rest);
        assert(report[report.len() - 1].lag > 0);
    }
}

/// Where every entry shows lag, the lags add up in 64 bits exactly when the total fits.
pub proof fn the_total_decides_whether_the_sum_fits(report: Seq<LagView>)
    requires
        all_positive(report),
    ensures
        total_fits(report) <==> total_lag(report) <= i64::MAX,
    decreases report.len(),
{
    assert(report.take(report.len() as int) =~= report);
    if total_lag(report) <= i64::MAX {
        if report.len() == 0 {
            assert forall|n: int| 0 <= n <= report.len() implies i64::MIN <= total_lag(
                #[trigger] report.take(n),
            ) <= i64::MAX by {
                assert(report.take(n) =~= report);
            }
        } else {
            let rest = report.drop_last();
            assert forall|i: int| 0 <= i < rest.len() implies (#[trigger] rest[i]).lag > 0 by {
                assert(rest[i] == report[i]);
            }
            assert(report[report.len() - 1].lag > 0);
            no_lag_in_total_means_no_entries(report);
            the_total_decides_whether_the_sum_fits(rest);
            assert forall|n: int| 0 <= n <= report.len() implies i64::MIN <= total_lag(
                #[trigger] report.take(n),
            ) <= i64::MAX by {
                if n < report.len() {
                    assert(report.take(n) =~= rest.take(n));
                }
            }
        }
    }
}

/// The total of a report is 0 exactly when every offset that a group has committed has reached
/// the known mark of its partition.
pub proof fn zero_total_means_caught_up(
    topics: Seq<TopicView>,
    watermarks: Seq<Option<int>>,
    groups: Seq<GroupView>,
    committed: Seq<Option<Seq<OffsetView>>>,
)
    ensures
        all_positive(consumer_lag(topics, watermarks, groups, committed)),
        total_lag(consumer_lag(topics, watermarks, groups, committed)) == 0 <==> forall|
            n: int,
            j: int,
        |
            #[trigger] has_offset(committed, n, j) ==> !is_behind(
                recorded_marks(application_keys(topics), watermarks),
                committed[n]->0[j],
            ),
{
    let names = counted_names(groups);
    let marks = recorded_marks(application_keys(topics), watermarks);
    let report = consumer_lag(topics, watermarks, groups, committed);
    assert forall|i: int| 0 <= i < report.len() implies (#[trigger] report[i]).lag > 0 by {
        let (n, j) = lemma_entry_origin(names, marks, committed, i);
    }
    no_lag_in_total_means_no_entries(report);
    empty_report_means_caught_up(topics, watermarks, groups, committed);
}

} // verus!
