//! What the rules of consumer lag come to, on the names, offsets and marks themselves.

use vstd::prelude::*;

use crate::lag::{
    application_keys, collected_lags, consumer_lag, counted_names, distance, distances_fit,
    group_lags, is_counted, is_internal, is_unjudged, lag_entry, read_missed, reads_missed,
    recorded_marks, total_fits, total_lag, unmarked_keys,
};
use crate::laws::report::has_offset;
use crate::model::{GroupView, LagView, Offset, OffsetView, PartitionKey, TopicView};

verus! {

/// A name is internal exactly when its first character is an underscore, whatever follows.
pub proof fn internal_names_begin_with_an_underscore(first: char, rest: Seq<char>)
    ensures
        is_internal(seq![first] + rest) <==> first == '_',
        !is_internal(Seq::empty()),
{
}

/// The group's state is "Stable", and its name neither begins with an underscore nor is the one
/// under which the check connects.
pub open spec fn is_settled_and_foreign(group: GroupView) -> bool {
    &&& group.state == "Stable"@
    &&& group.name != "antithesis-drain-check"@
    &&& group.name.len() == 0 || group.name[0] != '_'
}

/// The names that count are those of the groups that are settled and foreign, no matter what
/// other groups are listed.
pub proof fn names_that_count_are_those_of_settled_foreign_groups(
    groups: Seq<GroupView>,
    name: Seq<char>,
)
    ensures
        counted_names(groups).contains(name) <==> exists|i: int|
            {
                &&& 0 <= i < groups.len()
                &&& (#[trigger] groups[i]).name == name
                &&& groups[i].state == "Stable"@
                &&& name != "antithesis-drain-check"@
                &&& name.len() == 0 || name[0] != '_'
            },
    decreases groups.len(),
{
    let all = counted_names(groups);
    if groups.len() > 0 {
        let rest = groups.drop_last();
        let earlier = counted_names(rest);
        let last = groups.len() - 1;
        names_that_count_are_those_of_settled_foreign_groups(rest, name);
        if all.contains(name) {
            let k = all.index_of(name);
            if k < earlier.len() {
                assert(earlier[k] == name);
                let i = choose|i: int|
                    {
                        &&& 0 <= i < rest.len()
                        &&& (#[trigger] rest[i]).name == name
                        &&& rest[i].state == "Stable"@
                        &&& name != "antithesis-drain-check"@
                        &&& name.len() == 0 || name[0] != '_'
                    };
                assert(groups[i] == rest[i]);
            } else {
                assert(groups[last].name == name);
            }
        }
        if exists|i: int|
            {
                &&& 0 <= i < groups.len()
                &&& (#[trigger] groups[i]).name == name
                &&& groups[i].state == "Stable"@
                &&& name != "antithesis-drain-check"@
                &&& name.len() == 0 || name[0] != '_'
            } {
            let i = choose|i: int|
                {
                    &&& 0 <= i < groups.len()
                    &&& (#[trigger] groups[i]).name == name
                    &&& groups[i].state == "Stable"@
                    &&& name != "antithesis-drain-check"@
                    &&& name.len() == 0 || name[0] != '_'
                };
            if i < rest.len() {
                assert(rest[i].name == name);
                let k = earlier.index_of(name);
                assert(all[k] == name);
            } else {
                assert(all[earlier.len() as int] == name);
            }
        }
    }
}

/// Each group is judged by itself: the names that count in two lists, one after the other, are
/// those of the first and those of the second, and a list of one group gives its name or none.
pub proof fn groups_are_counted_one_by_one(
    first: Seq<GroupView>,
    second: Seq<GroupView>,
    group: GroupView,
)
    ensures
        is_counted(group) <==> is_settled_and_foreign(group),
        counted_names(first + second) == counted_names(first) + counted_names(second),
        counted_names(seq![group]) == if is_settled_and_foreign(group) {
            seq![group.name]
        } else {
            Seq::empty()
        },
    decreases second.len(),
{
    assert(seq![group].drop_last() =~= Seq::<GroupView>::empty());
    assert(counted_names(Seq::<GroupView>::empty()) =~= Seq::empty());
    assert(counted_names(seq![group]) =~= if is_settled_and_foreign(group) {
        seq![group.name]
    } else {
        Seq::empty()
    });
    if second.len() == 0 {
        assert(first + second =~= first);
        assert(counted_names(first) + counted_names(second) =~= counted_names(first));
    } else {
        groups_are_counted_one_by_one(first, second.drop_last(), group);
        assert((first + second).drop_last() =~= first + second.drop_last());
        assert(counted_names(first + second) =~= counted_names(first) + counted_names(second));
    }
}

/// Each topic gives its own partitions: the application partitions of two lists, one after the
/// other, are those of the first and those of the second. A topic whose name begins with an
/// underscore gives none, any other all of its partitions in their order.
pub proof fn topics_give_their_partitions_one_by_one(
    first: Seq<TopicView>,
    second: Seq<TopicView>,
    topic: TopicView,
)
    ensures
        application_keys(first + second) == application_keys(first) + application_keys(second),
        application_keys(seq![topic]) == if topic.name.len() > 0 && topic.name[0] == '_' {
            Seq::empty()
        } else {
            Seq::new(
                topic.partitions.len(),
                |p: int| (topic.name, topic.partitions[p] as int),
            )
        },
    decreases second.len(),
{
    assert(seq![topic].drop_last() =~= Seq::<TopicView>::empty());
    assert(application_keys(Seq::<TopicView>::empty()) =~= Seq::empty());
    assert(application_keys(seq![topic]) =~= if topic.name.len() > 0 && topic.name[0] == '_' {
        Seq::empty()
    } else {
        Seq::new(topic.partitions.len(), |p: int| (topic.name, topic.partitions[p] as int))
    });
    if second.len() == 0 {
        assert(first + second =~= first);
        assert(application_keys(first) + application_keys(second) =~= application_keys(first));
    } else {
        topics_give_their_partitions_one_by_one(first, second.drop_last(), topic);
        assert((first + second).drop_last() =~= first + second.drop_last());
        assert(application_keys(first + second) =~= application_keys(first) + application_keys(
            second,
        ));
    }
}

/// The distance is what is missing from a committed offset to the known mark of its partition,
/// and it is known exactly when both are. There is an entry exactly when the distance is more
/// than 0, and the entry shows the group, the partition, both ends and the distance.
pub proof fn an_entry_shows_how_far_the_mark_is_ahead(
    group: Seq<char>,
    marks: Map<PartitionKey, int>,
    offset: OffsetView,
)
    ensures
        distance(marks, offset) is Some <==> offset.offset is Offset && marks.contains_key(
            offset.key,
        ),
        distance(marks, offset) matches Some(d) ==> offset.offset->Offset_0 + d
            == marks[offset.key],
        lag_entry(group, marks, offset) is Some <==> {
            &&& offset.offset is Offset
            &&& marks.contains_key(offset.key)
            &&& offset.offset->Offset_0 < marks[offset.key]
        },
        lag_entry(group, marks, offset) matches Some(entry) ==> {
            &&& entry.group_id == group
            &&& entry.key == offset.key
            &&& entry.committed_offset == offset.offset->Offset_0
            &&& entry.high_water_mark == marks[offset.key]
            &&& entry.committed_offset + entry.lag == entry.high_water_mark
        },
{
}

/// The entry for one offset by itself: the mark is known and ahead of what was committed.
pub open spec fn entry_for(
    group: Seq<char>,
    marks: Map<PartitionKey, int>,
    offset: OffsetView,
) -> Seq<LagView> {
    match offset.offset {
        Offset::Offset(c) if marks.contains_key(offset.key) && c < marks[offset.key] => seq![
            LagView {
                group_id: group,
                key: offset.key,
                committed_offset: c as int,
                high_water_mark: marks[offset.key],
                lag: marks[offset.key] - c,
            },
        ],
        _ => Seq::empty(),
    }
}

/// Each offset is judged by itself: the entries for two lists of offsets, one after the other,
/// are those for the first and those for the second, and one offset gives its own entry or none.
pub proof fn offsets_are_judged_one_by_one(
    group: Seq<char>,
    marks: Map<PartitionKey, int>,
    first: Seq<OffsetView>,
    second: Seq<OffsetView>,
    offset: OffsetView,
)
    ensures
        group_lags(group, marks, first + second) == group_lags(group, marks, first) + group_lags(
            group,
            marks,
            second,
        ),
        group_lags(group, marks, seq![offset]) == entry_for(group, marks, offset),
    decreases second.len(),
{
    assert(seq![offset].drop_last() =~= Seq::<OffsetView>::empty());
    assert(group_lags(group, marks, Seq::<OffsetView>::empty()) =~= Seq::empty());
    assert(group_lags(group, marks, seq![offset]) =~= entry_for(group, marks, offset));
    if second.len() == 0 {
        assert(first + second =~= first);
        assert(group_lags(group, marks, first) + group_lags(group, marks, second) =~= group_lags(
            group,
            marks,
            first,
        ));
    } else {
        offsets_are_judged_one_by_one(group, marks, first, second.drop_last(), offset);
        assert((first + second).drop_last() =~= first + second.drop_last());
        assert(group_lags(group, marks, first + second) =~= group_lags(group, marks, first)
            + group_lags(group, marks, second));
    }
}

/// A report grows group by group, in the order of the groups that count: one more answer adds
/// that group's own entries behind the others, and an answer that could not be read adds none.
pub proof fn a_report_grows_group_by_group(
    topics: Seq<TopicView>,
    watermarks: Seq<Option<int>>,
    groups: Seq<GroupView>,
    committed: Seq<Option<Seq<OffsetView>>>,
    offsets: Seq<OffsetView>,
)
    ensures
        consumer_lag(topics, watermarks, groups, Seq::empty()).len() == 0,
        consumer_lag(topics, watermarks, groups, committed.push(None)) == consumer_lag(
            topics,
            watermarks,
            groups,
            committed,
        ),
        consumer_lag(topics, watermarks, groups, committed.push(Some(offsets))) == consumer_lag(
            topics,
            watermarks,
            groups,
            committed,
        ) + group_lags(
            counted_names(groups)[committed.len() as int],
            recorded_marks(application_keys(topics), watermarks),
            offsets,
        ),
{
    let names = counted_names(groups);
    let marks = recorded_marks(application_keys(topics), watermarks);
    assert(committed.push(None).drop_last() =~= committed);
    assert(committed.push(Some(offsets)).drop_last() =~= committed);
    assert(collected_lags(names, marks, committed.push(Some(offsets))) == collected_lags(
        names,
        marks,
        committed,
    ) + group_lags(names[committed.len() as int], marks, offsets));
}

/// Marks are recorded partition by partition: one more answer sets the mark of the partition
/// whose turn it is and leaves all others, and an answer that could not be read changes nothing.
pub proof fn marks_are_recorded_one_by_one(
    keys: Seq<PartitionKey>,
    answers: Seq<Option<int>>,
    high: int,
)
    ensures
        recorded_marks(keys, Seq::empty()) == Map::<PartitionKey, int>::empty(),
        recorded_marks(keys, answers.push(None)) == recorded_marks(keys, answers),
        recorded_marks(keys, answers.push(Some(high))) == recorded_marks(keys, answers).insert(
            keys[answers.len() as int],
            high,
        ),
{
    assert(answers.push(None).drop_last() =~= answers);
    assert(answers.push(Some(high)).drop_last() =~= answers);
}

/// The partitions without a mark in two lists of offsets, one after the other, are those in the
/// first and those in the second. One offset gives its partition exactly when it was committed
/// and the partition has no mark.
pub proof fn unmarked_partitions_are_found_one_by_one(
    marks: Map<PartitionKey, int>,
    first: Seq<OffsetView>,
    second: Seq<OffsetView>,
    offset: OffsetView,
)
    ensures
        unmarked_keys(marks, first + second) == unmarked_keys(marks, first) + unmarked_keys(
            marks,
            second,
        ),
        unmarked_keys(marks, seq![offset]) == if offset.offset is Offset && !marks.contains_key(
            offset.key,
        ) {
            seq![offset.key]
        } else {
            Seq::empty()
        },
    decreases second.len(),
{
    assert(seq![offset].drop_last() =~= Seq::<OffsetView>::empty());
    assert(unmarked_keys(marks, Seq::<OffsetView>::empty()) =~= Seq::empty());
    assert(unmarked_keys(marks, seq![offset]) =~= if offset.offset is Offset
        && !marks.contains_key(offset.key) {
        seq![offset.key]
    } else {
        Seq::empty()
    });
    if second.len() == 0 {
        assert(first + second =~= first);
        assert(unmarked_keys(marks, first) + unmarked_keys(marks, second) =~= unmarked_keys(
            marks,
            first,
        ));
    } else {
        unmarked_partitions_are_found_one_by_one(marks, first, second.drop_last(), offset);
        assert((first + second).drop_last() =~= first + second.drop_last());
        assert(unmarked_keys(marks, first + second) =~= unmarked_keys(marks, first)
            + unmarked_keys(marks, second));
    }
}

/// Something is missed exactly when a group's offsets could not be read at all, or an offset for
/// one of `keys` came with an error, or was committed and has no mark.
pub proof fn what_is_missed(
    keys: Seq<PartitionKey>,
    marks: Map<PartitionKey, int>,
    committed: Seq<Option<Seq<OffsetView>>>,
)
    ensures
        reads_missed(keys, marks, committed) <==> {
            ||| exists|n: int| 0 <= n < committed.len() && (#[trigger] committed[n]) is None
            ||| exists|n: int, j: int|
                {
                    let offset = committed[n]->0[j];
                    &&& #[trigger] has_offset(committed, n, j)
                    &&& keys.contains(offset.key)
                    &&& offset.failed || (offset.offset is Offset && !marks.contains_key(
                        offset.key,
                    ))
                }
        },
{
    if reads_missed(keys, marks, committed) {
        let n = choose|n: int|
            0 <= n < committed.len() && read_missed(
                keys,
                marks,
                #[trigger] committed[n],
            );
        if committed[n] is Some {
            let offsets = committed[n]->0;
            let j = choose|j: int|
                0 <= j < offsets.len() && is_unjudged(
                    keys,
                    marks,
                    #[trigger] offsets[j],
                );
            assert(has_offset(committed, n, j));
        }
    }
    if exists|n: int| 0 <= n < committed.len() && (#[trigger] committed[n]) is None {
        let n = choose|n: int| 0 <= n < committed.len() && (#[trigger] committed[n]) is None;
        assert(read_missed(keys, marks, committed[n]));
    }
    assert forall|n: int, j: int|
        {
            let offset = committed[n]->0[j];
            &&& #[trigger] has_offset(committed, n, j)
            &&& keys.contains(offset.key)
            &&& offset.failed || (offset.offset is Offset && !marks.contains_key(offset.key))
        } implies reads_missed(keys, marks, committed) by {
        let offsets = committed[n]->0;
        assert(is_unjudged(keys, marks, offsets[j]));
        assert(read_missed(keys, marks, committed[n]));
    }
}

/// Offsets can be judged in 64 bits exactly when, wherever a committed offset has a known mark,
/// the two are at most a 64-bit signed integer apart. Offsets and marks that are not negative
/// and fit in 64 bits themselves never stand in the way.
pub proof fn ordinary_offsets_can_be_judged(
    marks: Map<PartitionKey, int>,
    offsets: Seq<OffsetView>,
)
    ensures
        distances_fit(marks, offsets) <==> forall|i: int|
            0 <= i < offsets.len() && (#[trigger] offsets[i]).offset is Offset
                && marks.contains_key(offsets[i].key) ==> -0x8000_0000_0000_0000
                <= marks[offsets[i].key] - offsets[i].offset->Offset_0 <= 0x7fff_ffff_ffff_ffff,
        (forall|i: int|
            0 <= i < offsets.len() && (#[trigger] offsets[i]).offset is Offset
                && marks.contains_key(offsets[i].key) ==> {
                &&& 0 <= offsets[i].offset->Offset_0
                &&& 0 <= marks[offsets[i].key] <= i64::MAX
            }) ==> distances_fit(marks, offsets),
{
    if distances_fit(marks, offsets) {
        assert forall|i: int|
            0 <= i < offsets.len() && (#[trigger] offsets[i]).offset is Offset
                && marks.contains_key(offsets[i].key) implies -0x8000_0000_0000_0000
            <= marks[offsets[i].key] - offsets[i].offset->Offset_0 <= 0x7fff_ffff_ffff_ffff by {
            assert(distance(marks, offsets[i]) is Some);
        }
    }
}

/// The total is the sum of the lags: that of two reports together is the sum of their totals,
/// that of one entry is its lag, and that of no entries is 0.
pub proof fn totals_add_up(first: Seq<LagView>, second: Seq<LagView>, entry: LagView)
    ensures
        total_lag(first + second) == total_lag(first) + total_lag(second),
        total_lag(seq![entry]) == entry.lag,
        total_lag(Seq::empty()) == 0,
    decreases second.len(),
{
    assert(seq![entry].drop_last() =~= Seq::<LagView>::empty());
    assert(total_lag(Seq::<LagView>::empty()) == 0);
    if second.len() == 0 {
        assert(first + second =~= first);
    } else {
        totals_add_up(first, second.drop_last(), entry);
        assert((first + second).drop_last() =~= first + second.drop_last());
        assert((first + second).last() == second.last());
    }
}

/// The order of two parts of a report does not change its total.
pub proof fn totals_do_not_depend_on_order(first: Seq<LagView>, second: Seq<LagView>)
    ensures
        total_lag(first + second) == total_lag(second + first),
{
    totals_add_up(first, second, first[0]);
    totals_add_up(second, first, first[0]);
}

/// Adding up stays within 64 bits entry by entry: a report with one more entry adds up exactly
/// when the report adds up and its total and the entry's lag together are a 64-bit signed
/// integer. A report without entries adds up.
pub proof fn one_more_entry_fits_if_the_sum_does(report: Seq<LagView>, entry: LagView)
    ensures
        total_fits(Seq::empty()),
        total_fits(report.push(entry)) <==> total_fits(report) && -0x8000_0000_0000_0000
            <= total_lag(report) + entry.lag <= 0x7fff_ffff_ffff_ffff,
{
    let longer = report.push(entry);
    let n = report.len() as int;
    assert forall|m: int| 0 <= m <= 0 implies i64::MIN <= total_lag(
        #[trigger] Seq::<LagView>::empty().take(m),
    ) <= i64::MAX by {
        assert(Seq::<LagView>::empty().take(m) =~= Seq::empty());
    }
    assert(longer.drop_last() =~= report);
    assert(longer.take(n + 1) =~= longer);
    assert(total_lag(longer) == total_lag(report) + entry.lag);
    assert forall|m: int| 0 <= m <= n implies #[trigger] longer.take(m) == report.take(m) by {
        assert(longer.take(m) =~= report.take(m));
    }
    if total_fits(longer) {
        assert forall|m: int| 0 <= m <= report.len() implies i64::MIN <= total_lag(
            #[trigger] report.take(m),
        ) <= i64::MAX by {
            assert(longer.take(m) == report.take(m));
        }
    }
    if total_fits(report) && i64::MIN <= total_lag(report) + entry.lag <= i64::MAX {
        assert forall|m: int| 0 <= m <= longer.len() implies i64::MIN <= total_lag(
            #[trigger] longer.take(m),
        ) <= i64::MAX by {
            if m <= n {
                assert(longer.take(m) == report.take(m));
            }
        }
    }
}

} // verus!
