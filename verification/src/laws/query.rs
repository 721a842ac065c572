//! What a whole lag query comes to.

use vstd::prelude::*;

use crate::lag::{
    application_keys, collected_lags, consumer_lag, counted_names, distances_fit, group_lags,
    read_missed, reads_missed, recorded_marks,
};
use crate::laws::lag::ordinary_offsets_can_be_judged;
use crate::laws::report::{
    all_read_and_reached, empty_report_with_nothing_missed_means_all_reached,
};
use crate::model::{GroupView, Offset, OffsetView, PartitionKey, TopicView};
use crate::partition_list::unassigned;
use crate::query::{listable, QueryActionView, QueryError, QueryEventView, QueryPhase, QueryView};

verus! {

/// A query after a series of events.
pub open spec fn query_after(events: Seq<QueryEventView>) -> QueryView
    decreases events.len(),
{
    if events.len() == 0 {
        QueryView::initial()
    } else {
        query_after(events.drop_last()).after(events.last())
    }
}

/// A query takes the events one after the other.
pub open spec fn query_takes(events: Seq<QueryEventView>) -> bool
    decreases events.len(),
{
    events.len() > 0 ==> {
        &&& query_takes(events.drop_last())
        &&& query_after(events.drop_last()).accepts(events.last())
    }
}

/// The topics that the events tell of.
pub open spec fn topics_told(events: Seq<QueryEventView>) -> Seq<TopicView>
    decreases events.len(),
{
    if events.len() == 0 {
        Seq::empty()
    } else {
        match events.last() {
            QueryEventView::Metadata(topics) => topics,
            _ => topics_told(events.drop_last()),
        }
    }
}

/// The high watermark in an answer.
pub open spec fn high_of(answer: Option<(int, int)>) -> Option<int> {
    match answer {
        Some((_, high)) => Some(high),
        None => None,
    }
}

/// The high watermarks that the events tell of, in their order.
pub open spec fn watermarks_told(events: Seq<QueryEventView>) -> Seq<Option<int>>
    decreases events.len(),
{
    if events.len() == 0 {
        Seq::empty()
    } else {
        let earlier = watermarks_told(events.drop_last());
        match events.last() {
            QueryEventView::Watermarks(answer) => earlier.push(high_of(answer)),
            _ => earlier,
        }
    }
}

/// The groups that the events tell of.
pub open spec fn groups_told(events: Seq<QueryEventView>) -> Seq<GroupView>
    decreases events.len(),
{
    if events.len() == 0 {
        Seq::empty()
    } else {
        match events.last() {
            QueryEventView::Groups(groups) => groups,
            _ => groups_told(events.drop_last()),
        }
    }
}

/// The committed offsets that the events tell of, group by group.
pub open spec fn committed_told(events: Seq<QueryEventView>) -> Seq<Option<Seq<OffsetView>>>
    decreases events.len(),
{
    if events.len() == 0 {
        Seq::empty()
    } else {
        let earlier = committed_told(events.drop_last());
        match events.last() {
            QueryEventView::Committed(answer) => earlier.push(answer),
            _ => earlier,
        }
    }
}

/// One more answer leaves something out where it does so itself or an earlier one does.
proof fn lemma_one_more_answer(
    keys: Seq<PartitionKey>,
    marks: Map<PartitionKey, int>,
    answers: Seq<Option<Seq<OffsetView>>>,
    answer: Option<Seq<OffsetView>>,
)
    ensures
        reads_missed(keys, marks, answers.push(answer)) <==> reads_missed(keys, marks, answers)
            || read_missed(keys, marks, answer),
{
    let all = answers.push(answer);
    if reads_missed(keys, marks, answers) {
        let n = choose|n: int|
            0 <= n < answers.len() && read_missed(keys, marks, #[trigger] answers[n]);
        assert(read_missed(keys, marks, all[n]));
    }
    if read_missed(keys, marks, answer) {
        assert(read_missed(keys, marks, all[answers.len() as int]));
    }
    if reads_missed(keys, marks, all) {
        let n = choose|n: int| 0 <= n < all.len() && read_missed(keys, marks, #[trigger] all[n]);
        if n < answers.len() {
            assert(read_missed(keys, marks, answers[n]));
        }
    }
}

proof fn lemma_progress(events: Seq<QueryEventView>)
    requires
        query_takes(events),
    ensures
        ({
            let query = query_after(events);
            &&& query.well_formed()
            &&& query.keys == application_keys(topics_told(events))
            &&& query.asked == watermarks_told(events).len()
            &&& query.marks == recorded_marks(query.keys, watermarks_told(events))
            &&& query.groups == counted_names(groups_told(events))
            &&& query.visited == committed_told(events).len()
            &&& query.lags == collected_lags(query.groups, query.marks, committed_told(events))
            &&& query.missed == reads_missed(query.keys, query.marks, committed_told(events))
            &&& match query.phase {
                QueryPhase::Metadata => events.len() == 0,
                QueryPhase::Watermarks => events.len() == 1 + query.asked,
                QueryPhase::Groups => events.len() == 1 + query.asked,
                QueryPhase::Committed => events.len() == 2 + query.asked + query.visited,
                QueryPhase::Done => if query.keys.len() == 0 {
                    events.len() == 1
                } else {
                    events.len() == 2 + query.asked + query.visited
                },
                QueryPhase::Failed(_) => events.len() >= 1,
            }
        }),
    decreases events.len(),
{
    if events.len() > 0 {
        let earlier = events.drop_last();
        lemma_progress(earlier);
        if events.last() is Watermarks {
            assert(watermarks_told(events).drop_last() =~= watermarks_told(earlier));
        }
        if let QueryEventView::Committed(answer) = events.last() {
            let query = query_after(earlier);
            assert(committed_told(events).drop_last() =~= committed_told(earlier));
            lemma_one_more_answer(query.keys, query.marks, committed_told(earlier), answer);
        }
    }
}

/// The report of a query that ends well is the consumer lag of what the query was told, whatever
/// that is. Every application partition has been asked for its watermarks and every group that
/// counts for its offsets, each once and in order.
pub proof fn a_query_reports_the_lag_it_was_told_of(events: Seq<QueryEventView>)
    requires
        query_takes(events),
        query_after(events).phase == QueryPhase::Done,
    ensures
        query_after(events).lags == consumer_lag(
            topics_told(events),
            watermarks_told(events),
            groups_told(events),
            committed_told(events),
        ),
        watermarks_told(events).len() == application_keys(topics_told(events)).len(),
        committed_told(events).len() == counted_names(groups_told(events)).len(),
        query_after(events).request() == QueryActionView::Finish,
{
    lemma_progress(events);
}

/// An empty report means that all groups have caught up: a query that ends well has an empty
/// report exactly when the offsets of every group that counts were read, those for application
/// partitions without an error, and every offset that a group has committed for an application
/// partition has a known mark and has reached it.
pub proof fn an_empty_report_means_all_was_read_and_reached(events: Seq<QueryEventView>)
    requires
        query_takes(events),
        query_after(events).phase == QueryPhase::Done,
    ensures
        query_after(events).lags.len() == 0 <==> all_read_and_reached(
            topics_told(events),
            watermarks_told(events),
            committed_told(events),
        ),
        committed_told(events).len() == counted_names(groups_told(events)).len(),
{
    lemma_progress(events);
    empty_report_with_nothing_missed_means_all_reached(
        topics_told(events),
        watermarks_told(events),
        groups_told(events),
        committed_told(events),
    );
}

/// The groups have been listed.
pub open spec fn groups_listed(events: Seq<QueryEventView>) -> bool {
    exists|i: int| 0 <= i < events.len() && (#[trigger] events[i]) is Groups
}

proof fn lemma_groups_listed(events: Seq<QueryEventView>)
    requires
        query_takes(events),
    ensures
        match query_after(events).phase {
            QueryPhase::Metadata => !groups_listed(events),
            QueryPhase::Watermarks => !groups_listed(events),
            QueryPhase::Groups => !groups_listed(events),
            QueryPhase::Committed => groups_listed(events),
            QueryPhase::Done => groups_listed(events) || query_after(events).keys.len() == 0,
            QueryPhase::Failed(_) => true,
        },
    decreases events.len(),
{
    if events.len() > 0 {
        let earlier = events.drop_last();
        let last = events.len() - 1;
        lemma_groups_listed(earlier);
        lemma_progress(earlier);
        if groups_listed(earlier) {
            let i = choose|i: int| 0 <= i < earlier.len() && (#[trigger] earlier[i]) is Groups;
            assert(events[i] is Groups);
        }
        if events[last] is Groups {
            assert(groups_listed(events));
        }
        if groups_listed(events) && !(events[last] is Groups) {
            let i = choose|i: int| 0 <= i < events.len() && (#[trigger] events[i]) is Groups;
            assert(earlier[i] is Groups);
        }
    }
}

/// A query asks for one thing after the other: the topics, the watermarks of each application
/// partition in its turn, the groups, and the offsets of each group that counts in its turn. The
/// partition or group that it asks about next is the first that it has no answer for.
pub proof fn a_query_asks_for_each_in_turn(events: Seq<QueryEventView>)
    requires
        query_takes(events),
        !(query_after(events).phase is Failed),
    ensures
        ({
            let keys = application_keys(topics_told(events));
            let names = counted_names(groups_told(events));
            let read = watermarks_told(events).len();
            let heard = committed_told(events).len();
            query_after(events).request() == if events.len() == 0 {
                QueryActionView::FetchMetadata
            } else if read < keys.len() {
                QueryActionView::FetchWatermarks(keys[read as int])
            } else if keys.len() > 0 && !groups_listed(events) {
                QueryActionView::ListGroups
            } else if heard < names.len() {
                QueryActionView::FetchCommitted(names[heard as int])
            } else {
                QueryActionView::Finish
            }
        }),
{
    lemma_progress(events);
    lemma_groups_listed(events);
    if query_after(events).phase == QueryPhase::Done && query_after(events).keys.len() == 0 {
        assert(events.len() == 1);
    }
}

/// An answer is put down to what was asked about. A high watermark becomes the mark of the very
/// partition that was asked for, whatever the low one is, and all other marks stay. A group's
/// offsets are reported under the very group that was asked for, behind the report so far.
pub proof fn an_answer_counts_for_what_was_asked(
    events: Seq<QueryEventView>,
    low: int,
    high: int,
    offsets: Seq<OffsetView>,
)
    requires
        query_takes(events),
    ensures
        ({
            let query = query_after(events);
            let marked = query.after(QueryEventView::Watermarks(Some((low, high))));
            let heard = query.after(QueryEventView::Committed(Some(offsets)));
            &&& query.request() matches QueryActionView::FetchWatermarks(key) ==> {
                &&& marked.marks == query.marks.insert(key, high)
                &&& marked.lags == query.lags
            }
            &&& query.request() matches QueryActionView::FetchCommitted(group) ==> {
                &&& heard.lags == query.lags + group_lags(group, query.marks, offsets)
                &&& heard.marks == query.marks
            }
        }),
{
    lemma_progress(events);
}

/// At every point a query holds the application partitions of the topics it was told of, the
/// marks that were read for them, and the consumer lag of the answers so far.
pub proof fn a_query_holds_what_it_was_told(events: Seq<QueryEventView>)
    requires
        query_takes(events),
    ensures
        query_after(events).keys == application_keys(topics_told(events)),
        query_after(events).marks == recorded_marks(
            application_keys(topics_told(events)),
            watermarks_told(events),
        ),
        query_after(events).lags == consumer_lag(
            topics_told(events),
            watermarks_told(events),
            groups_told(events),
            committed_told(events),
        ),
{
    lemma_progress(events);
}

/// A query takes exactly the answers to what it asked: for the topics, that they could not be
/// read or a list that the client can hold; for watermarks, any; for the groups, that they could
/// not be listed or any list; for a group's offsets, that they could not be read or any that are
/// a 64-bit signed integer from the known marks. A query that has ended takes none.
pub proof fn a_query_takes_the_answers_to_what_it_asked(query: QueryView, event: QueryEventView)
    ensures
        query.accepts(event) <==> match (query.request(), event) {
            (QueryActionView::FetchMetadata, QueryEventView::ClientFailed) => true,
            (QueryActionView::FetchMetadata, QueryEventView::MetadataFailed) => true,
            (QueryActionView::FetchMetadata, QueryEventView::Metadata(topics)) => {
                let keys = application_keys(topics);
                &&& keys.len() <= 0x4000_0000
                &&& forall|i: int, c: int|
                    0 <= i < keys.len() && 0 <= c < keys[i].0.len() ==> #[trigger] keys[i].0[c]
                        != '\0'
            },
            (QueryActionView::FetchWatermarks(_), QueryEventView::Watermarks(_)) => true,
            (QueryActionView::ListGroups, QueryEventView::GroupsFailed) => true,
            (QueryActionView::ListGroups, QueryEventView::Groups(_)) => true,
            (QueryActionView::FetchCommitted(_), QueryEventView::Committed(None)) => true,
            (QueryActionView::FetchCommitted(_), QueryEventView::Committed(Some(offsets))) => {
                forall|i: int|
                    0 <= i < offsets.len() && (#[trigger] offsets[i]).offset is Offset
                        && query.marks.contains_key(offsets[i].key) ==> i64::MIN
                        <= query.marks[offsets[i].key] - offsets[i].offset->Offset_0 <= i64::MAX
            },
            _ => false,
        },
{
    match event {
        QueryEventView::Metadata(topics) => {
            let keys = application_keys(topics);
            if listable(keys) {
                assert forall|i: int, c: int|
                    0 <= i < keys.len() && 0 <= c < keys[i].0.len() implies #[trigger] keys[i].0[c]
                    != '\0' by {
                    assert(!keys[i].0.contains('\0'));
                }
            }
            if forall|i: int, c: int|
                0 <= i < keys.len() && 0 <= c < keys[i].0.len() ==> #[trigger] keys[i].0[c]
                    != '\0' {
                assert forall|i: int| 0 <= i < keys.len() implies !(
                #[trigger] keys[i]).0.contains('\0') by {
                    if keys[i].0.contains('\0') {
                        let c = keys[i].0.index_of('\0');
                        assert(keys[i].0[c] == '\0');
                    }
                }
            }
        },
        QueryEventView::Committed(Some(offsets)) => {
            ordinary_offsets_can_be_judged(query.marks, offsets);
        },
        _ => {},
    }
}

/// The client's list of a query's partitions has one entry for each, in their order, with no
/// offset and no error.
pub proof fn the_clients_list_has_every_partition(keys: Seq<PartitionKey>)
    ensures
        unassigned(keys).len() == keys.len(),
        forall|i: int|
            0 <= i < keys.len() ==> {
                &&& (#[trigger] unassigned(keys)[i]).key == keys[i]
                &&& unassigned(keys)[i].offset == Offset::Invalid
                &&& !unassigned(keys)[i].failed
            },
{
}

/// How a failed query failed: with its last event, the one that told of the failure, or with the
/// last group's answer where nothing that was told shows lag and something was missed.
pub proof fn a_failed_query_says_why(events: Seq<QueryEventView>)
    requires
        query_takes(events),
        query_after(events).phase is Failed,
    ensures
        query_after(events).request() == QueryActionView::Fail(
            match events.last() {
                QueryEventView::ClientFailed => QueryError::Client,
                QueryEventView::MetadataFailed => QueryError::Metadata,
                QueryEventView::GroupsFailed => QueryError::Groups,
                _ => QueryError::Incomplete,
            },
        ),
        events.last() is Committed <==> query_after(events).phase == QueryPhase::Failed(
            QueryError::Incomplete,
        ),
        events.last() is Committed ==> {
            &&& watermarks_told(events).len() == application_keys(topics_told(events)).len()
            &&& committed_told(events).len() == counted_names(groups_told(events)).len()
            &&& consumer_lag(
                topics_told(events),
                watermarks_told(events),
                groups_told(events),
                committed_told(events),
            ).len() == 0
            &&& reads_missed(
                application_keys(topics_told(events)),
                recorded_marks(application_keys(topics_told(events)), watermarks_told(events)),
                committed_told(events),
            )
        },
{
    lemma_progress(events);
    if events.len() > 0 {
        lemma_progress(events.drop_last());
    }
}

/// Each error has its own text.
pub proof fn errors_have_their_texts(error: QueryError)
    ensures
        error.text() == match error {
            QueryError::Client => "failed to create metadata consumer"@,
            QueryError::Metadata => "failed to fetch cluster metadata"@,
            QueryError::Groups => "failed to list consumer groups"@,
            QueryError::Incomplete => "failed to read every mark and committed offset"@,
        },
{
}

/// A query takes one event for the topics, one for each application partition, one for the
/// groups and one for each group that counts. It never takes more; where there are no
/// application partitions it stops after the topics.
pub proof fn a_query_is_bounded(events: Seq<QueryEventView>)
    requires
        query_takes(events),
    ensures
        events.len() <= 2 + application_keys(topics_told(events)).len() + counted_names(
            groups_told(events),
        ).len(),
        query_after(events).phase == QueryPhase::Done ==> events.len() == (if application_keys(
            topics_told(events),
        ).len() == 0 {
            1
        } else {
            2 + application_keys(topics_told(events)).len() + counted_names(
                groups_told(events),
            ).len()
        }),
{
    lemma_progress(events);
    if events.len() > 0 {
        lemma_progress(events.drop_last());
    }
}

/// A query that has ended takes no further event.
pub proof fn an_ended_query_takes_nothing(query: QueryView, event: QueryEventView)
    requires
        query.phase is Done || query.phase is Failed,
    ensures
        !query.accepts(event),
{
}

/// Where the cluster has no application partitions, the query ends with an empty report as soon
/// as it has the topics.
pub proof fn no_application_topics_means_an_empty_report(topics: Seq<TopicView>)
    requires
        application_keys(topics).len() == 0,
    ensures
        QueryView::initial().accepts(QueryEventView::Metadata(topics)),
        QueryView::initial().after(QueryEventView::Metadata(topics)).request()
            == QueryActionView::Finish,
        QueryView::initial().after(QueryEventView::Metadata(topics)).lags.len() == 0,
{
}

/// An answer that a watermark or a group's offsets could not be read leaves the marks and the
/// report as they were. Offsets that could not be read are missed; they end the query only if
/// theirs is the last answer and the report is empty.
pub proof fn a_failed_read_is_left_out(query: QueryView, event: QueryEventView)
    requires
        query.accepts(event),
        event == QueryEventView::Watermarks(None) || event == QueryEventView::Committed(None),
    ensures
        query.after(event).marks == query.marks,
        query.after(event).lags == query.lags,
        query.after(event).missed == (query.missed || event is Committed),
        query.after(event).phase is Failed ==> {
            &&& event is Committed
            &&& query.visited + 1 >= query.groups.len()
            &&& query.lags.len() == 0
        },
{
}

/// A query fails exactly when the client cannot be made, when the topics or the groups cannot be
/// listed, or when the last group leaves the report empty with something missed. Each failure
/// has its own error.
pub proof fn only_failed_listings_and_missed_reads_fail_a_query(
    query: QueryView,
    event: QueryEventView,
)
    requires
        query.accepts(event),
    ensures
        query.after(event).phase == QueryPhase::Failed(QueryError::Client) <==> event
            is ClientFailed,
        query.after(event).phase == QueryPhase::Failed(QueryError::Metadata) <==> event
            is MetadataFailed,
        query.after(event).phase == QueryPhase::Failed(QueryError::Groups) <==> event
            is GroupsFailed,
        query.after(event).phase == QueryPhase::Failed(QueryError::Incomplete) <==> {
            &&& event is Committed
            &&& query.visited + 1 >= query.groups.len()
            &&& query.after(event).lags.len() == 0
            &&& query.after(event).missed
        },
{
}

/// Lag that was found is reported, whatever else was missed: a query that has found lag and
/// asked its last group ends well.
pub proof fn found_lag_is_reported(query: QueryView, event: QueryEventView)
    requires
        query.accepts(event),
        event is Committed,
        query.visited + 1 == query.groups.len(),
        query.after(event).lags.len() > 0,
    ensures
        query.after(event).request() == QueryActionView::Finish,
{
}

/// The events of a query whose reads are all answered.
pub open spec fn script(
    topics: Seq<TopicView>,
    watermarks: Seq<Option<(int, int)>>,
    groups: Seq<GroupView>,
    committed: Seq<Option<Seq<OffsetView>>>,
) -> Seq<QueryEventView> {
    seq![QueryEventView::Metadata(topics)] + watermarks.map_values(
        |a: Option<(int, int)>| QueryEventView::Watermarks(a),
    ) + seq![QueryEventView::Groups(groups)] + committed.map_values(
        |a: Option<Seq<OffsetView>>| QueryEventView::Committed(a),
    )
}

proof fn lemma_script_first(topics: Seq<TopicView>, watermarks: Seq<Option<(int, int)>>)
    requires
        listable(application_keys(topics)),
        0 < application_keys(topics).len(),
        watermarks.len() <= application_keys(topics).len(),
    ensures
        ({
            let events = seq![QueryEventView::Metadata(topics)] + watermarks.map_values(
                |a: Option<(int, int)>| QueryEventView::Watermarks(a),
            );
            &&& query_takes(events)
            &&& query_after(events).phase == if watermarks.len() < application_keys(topics).len() {
                QueryPhase::Watermarks
            } else {
                QueryPhase::Groups
            }
            &&& query_after(events).asked == watermarks.len()
            &&& topics_told(events) == topics
            &&& watermarks_told(events) == watermarks.map_values(
                |a: Option<(int, int)>| high_of(a),
            )
            &&& groups_told(events) == Seq::<GroupView>::empty()
            &&& committed_told(events) == Seq::<Option<Seq<OffsetView>>>::empty()
        }),
    decreases watermarks.len(),
{
    let wrap = |a: Option<(int, int)>| QueryEventView::Watermarks(a);
    let high = |a: Option<(int, int)>| high_of(a);
    let first = seq![QueryEventView::Metadata(topics)];
    let events = first + watermarks.map_values(wrap);
    if watermarks.len() == 0 {
        assert(events =~= first);
        assert(first.drop_last() =~= Seq::<QueryEventView>::empty());
        reveal_with_fuel(query_takes, 2);
        reveal_with_fuel(query_after, 2);
        reveal_with_fuel(watermarks_told, 2);
        reveal_with_fuel(groups_told, 2);
        reveal_with_fuel(committed_told, 2);
        assert(watermarks_told(events) =~= watermarks.map_values(high));
    } else {
        let rest = watermarks.drop_last();
        lemma_script_first(topics, rest);
        assert(events.drop_last() =~= first + rest.map_values(wrap));
        assert(events.last() == QueryEventView::Watermarks(watermarks.last()));
        lemma_progress(events.drop_last());
        assert(watermarks_told(events) =~= watermarks.map_values(high));
    }
}

/// How a query ends that has been told these things.
pub open spec fn ending(
    topics: Seq<TopicView>,
    watermarks: Seq<Option<int>>,
    groups: Seq<GroupView>,
    committed: Seq<Option<Seq<OffsetView>>>,
) -> QueryPhase {
    if consumer_lag(topics, watermarks, groups, committed).len() == 0 && reads_missed(
        application_keys(topics),
        recorded_marks(application_keys(topics), watermarks),
        committed,
    ) {
        QueryPhase::Failed(QueryError::Incomplete)
    } else {
        QueryPhase::Done
    }
}

/// A query that is told of some application partitions goes through to the end, whatever the
/// answers are: one for each application partition and one for each group that counts, with
/// offsets whose distance to the marks fits in 64 bits. Its report is the consumer lag. It ends
/// well unless that is empty and something was missed.
pub proof fn an_answered_query_comes_to_an_end(
    topics: Seq<TopicView>,
    watermarks: Seq<Option<(int, int)>>,
    groups: Seq<GroupView>,
    committed: Seq<Option<Seq<OffsetView>>>,
)
    requires
        listable(application_keys(topics)),
        0 < application_keys(topics).len() == watermarks.len(),
        committed.len() == counted_names(groups).len(),
        forall|n: int|
            0 <= n < committed.len() && (#[trigger] committed[n]) is Some ==> distances_fit(
                recorded_marks(
                    application_keys(topics),
                    watermarks.map_values(|a: Option<(int, int)>| high_of(a)),
                ),
                committed[n]->0,
            ),
    ensures
        query_takes(script(topics, watermarks, groups, committed)),
        query_after(script(topics, watermarks, groups, committed)).phase == ending(
            topics,
            watermarks.map_values(|a: Option<(int, int)>| high_of(a)),
            groups,
            committed,
        ),
        query_after(script(topics, watermarks, groups, committed)).lags == consumer_lag(
            topics,
            watermarks.map_values(|a: Option<(int, int)>| high_of(a)),
            groups,
            committed,
        ),
{
    lemma_script(topics, watermarks, groups, committed);
    lemma_progress(script(topics, watermarks, groups, committed));
}

proof fn lemma_script(
    topics: Seq<TopicView>,
    watermarks: Seq<Option<(int, int)>>,
    groups: Seq<GroupView>,
    committed: Seq<Option<Seq<OffsetView>>>,
)
    requires
        listable(application_keys(topics)),
        0 < application_keys(topics).len() == watermarks.len(),
        committed.len() <= counted_names(groups).len(),
        forall|n: int|
            0 <= n < committed.len() && (#[trigger] committed[n]) is Some ==> distances_fit(
                recorded_marks(
                    application_keys(topics),
                    watermarks.map_values(|a: Option<(int, int)>| high_of(a)),
                ),
                committed[n]->0,
            ),
    ensures
        ({
            let events = script(topics, watermarks, groups, committed);
            &&& query_takes(events)
            &&& query_after(events).phase == if committed.len() < counted_names(groups).len() {
                QueryPhase::Committed
            } else {
                ending(
                    topics,
                    watermarks.map_values(|a: Option<(int, int)>| high_of(a)),
                    groups,
                    committed,
                )
            }
            &&& topics_told(events) == topics
            &&& watermarks_told(events) == watermarks.map_values(
                |a: Option<(int, int)>| high_of(a),
            )
            &&& groups_told(events) == groups
            &&& committed_told(events) == committed
        }),
    decreases committed.len(),
{
    let wrap = |a: Option<Seq<OffsetView>>| QueryEventView::Committed(a);
    let first = seq![QueryEventView::Metadata(topics)] + watermarks.map_values(
        |a: Option<(int, int)>| QueryEventView::Watermarks(a),
    );
    let listing = first + seq![QueryEventView::Groups(groups)];
    let events = script(topics, watermarks, groups, committed);
    if committed.len() == 0 {
        lemma_script_first(topics, watermarks);
        lemma_progress(first);
        assert(events =~= listing);
        assert(events.drop_last() =~= first);
        assert(committed_told(events) =~= committed);
    } else {
        let rest = committed.drop_last();
        assert forall|n: int| 0 <= n < rest.len() && (#[trigger] rest[n]) is Some implies
            distances_fit(
            recorded_marks(
                application_keys(topics),
                watermarks.map_values(|a: Option<(int, int)>| high_of(a)),
            ),
            rest[n]->0,
        ) by {
            assert(rest[n] == committed[n]);
        }
        lemma_script(topics, watermarks, groups, rest);
        assert(events.drop_last() =~= script(topics, watermarks, groups, rest));
        assert(events.last() == QueryEventView::Committed(committed.last()));
        lemma_progress(events.drop_last());
        assert(committed[committed.len() - 1] == committed.last());
        assert(committed_told(events) =~= committed);
        lemma_progress(events);
    }
}

} // verus!
