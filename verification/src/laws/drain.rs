//! What a whole drain check comes to.

use vstd::prelude::*;

use crate::drain::{
    BacklogView, ConclusionView, DrainActionView, DrainEventView, DrainPhase, DrainView,
    DRAIN_TIMEOUT_NANOS, POLL_INTERVAL_SECS,
};
use crate::lag::{
    application_keys, consumer_lag, counted_names, recorded_marks, total_fits, total_lag,
};
use crate::laws::health::NANOS_PER_SEC;
use crate::laws::query::{
    a_query_reports_the_lag_it_was_told_of, an_empty_report_means_all_was_read_and_reached,
    committed_told, groups_told, query_after, query_takes, topics_told, watermarks_told,
};
use crate::laws::report::{
    all_positive, all_read_and_reached, has_offset, is_behind, no_lag_in_total_means_no_entries,
    zero_total_means_caught_up,
};
use crate::model::{GroupView, LagView, OffsetView, TopicView};
use crate::query::{QueryEventView, QueryPhase};

verus! {

/// A drain check after a series of events.
pub open spec fn check_after(events: Seq<DrainEventView>) -> DrainView
    decreases events.len(),
{
    if events.len() == 0 {
        DrainView::initial()
    } else {
        check_after(events.drop_last()).after(events.last())
    }
}

/// A drain check takes the events one after the other.
pub open spec fn check_takes(events: Seq<DrainEventView>) -> bool
    decreases events.len(),
{
    events.len() > 0 ==> {
        &&& check_takes(events.drop_last())
        &&& check_after(events.drop_last()).accepts(events.last())
    }
}

/// The last report among the events.
pub open spec fn last_report(events: Seq<DrainEventView>) -> Seq<LagView>
    decreases events.len(),
{
    if events.len() == 0 {
        Seq::empty()
    } else {
        match events.last() {
            DrainEventView::Reading(Some(lags), _) => lags,
            _ => last_report(events.drop_last()),
        }
    }
}

/// The nanoseconds that an event was given.
pub open spec fn elapsed_at(event: DrainEventView) -> int {
    match event {
        DrainEventView::Reading(_, elapsed) => elapsed,
        DrainEventView::Health(_) => 0,
    }
}

proof fn lemma_course(events: Seq<DrainEventView>)
    requires
        check_takes(events),
    ensures
        ({
            let check = check_after(events);
            &&& check.current == last_report(events)
            &&& match check.phase {
                DrainPhase::Health => events.len() == 0,
                DrainPhase::FirstQuery => events == seq![DrainEventView::Health(true)],
                DrainPhase::Unreachable => events == seq![DrainEventView::Health(false)],
                DrainPhase::Failed => {
                    &&& events.len() == 2
                    &&& events[0] == DrainEventView::Health(true)
                    &&& events[1] matches DrainEventView::Reading(None, _)
                },
                DrainPhase::NextQuery => {
                    &&& events.len() == check.attempts + 1
                    &&& events.len() >= 2
                    &&& events[0] == DrainEventView::Health(true)
                    &&& events[1] matches DrainEventView::Reading(Some(_), _)
                    &&& total_fits(check.current)
                    &&& total_lag(check.current) != 0
                    &&& elapsed_at(events.last()) < DRAIN_TIMEOUT_NANOS
                },
                DrainPhase::Concluded => {
                    &&& events.len() == check.attempts + 2
                    &&& events[0] == DrainEventView::Health(true)
                    &&& events[1] matches DrainEventView::Reading(Some(_), _)
                    &&& total_fits(check.current)
                    &&& total_lag(check.current) == 0 || elapsed_at(events.last())
                        >= DRAIN_TIMEOUT_NANOS
                },
            }
            &&& check.phase == DrainPhase::Health || check.phase == DrainPhase::FirstQuery
                || check.phase == DrainPhase::Unreachable || check.phase == DrainPhase::Failed
                ==> check.attempts == 0
        }),
    decreases events.len(),
{
    if events.len() > 0 {
        let before = events.drop_last();
        lemma_course(before);
        match events.last() {
            DrainEventView::Health(recovered) => {
                assert(events =~= seq![DrainEventView::Health(recovered)]);
            },
            DrainEventView::Reading(_, _) => {
                assert(before.len() > 0);
                assert(events[0] == before[0]);
                if before.len() > 1 {
                    assert(events[1] == before[1]);
                }
            },
        }
    }
}

/// A check that comes to a conclusion goes by the last report it was given: the consumers have
/// caught up exactly when the lag in that report adds up to 0, and what is left is that sum.
pub proof fn the_last_report_decides(events: Seq<DrainEventView>)
    requires
        check_takes(events),
        check_after(events).phase == DrainPhase::Concluded,
    ensures
        check_after(events).request() matches Some(DrainActionView::Conclude(backlog, conclusion))
            && {
            &&& conclusion.all_caught_up <==> total_lag(last_report(events)) == 0
            &&& conclusion.final_lag_total == total_lag(last_report(events))
            &&& backlog is Some <==> total_lag(last_report(events)) > 0
            &&& backlog is Some ==> backlog->0.observed_lag == total_lag(last_report(events))
            &&& backlog is Some ==> backlog->0.lagging_partition_count == last_report(events).len()
        },
{
    lemma_course(events);
    let report = last_report(events);
    assert(report.take(report.len() as int) =~= report);
}

/// A failed query leaves the report before it in place.
pub proof fn a_failed_query_keeps_the_report(check: DrainView, elapsed: int)
    requires
        check.phase == DrainPhase::NextQuery,
    ensures
        check.after(DrainEventView::Reading(None, elapsed)).current == check.current,
        !(check.after(DrainEventView::Reading(None, elapsed)).phase == DrainPhase::Failed),
{
}

/// A check goes on exactly as long as lag is left and time is left: it has concluded exactly
/// when its last report adds up to 0 or the last event came when the time was up.
pub proof fn a_check_goes_on_while_lag_and_time_are_left(events: Seq<DrainEventView>)
    requires
        check_takes(events),
        check_after(events).phase == DrainPhase::Concluded || check_after(events).phase
            == DrainPhase::NextQuery,
    ensures
        check_after(events).phase == DrainPhase::Concluded <==> (total_lag(last_report(events))
            == 0 || elapsed_at(events.last()) >= DRAIN_TIMEOUT_NANOS),
{
    lemma_course(events);
}

/// The time of the first reading does not lie before its start, and each later reading comes at
/// least the pause between queries after the one before it.
pub open spec fn polls_spaced(events: Seq<DrainEventView>) -> bool {
    &&& events.len() > 1 ==> elapsed_at(events[1]) >= 0
    &&& forall|i: int|
        1 < i < events.len() ==> elapsed_at(#[trigger] events[i]) >= elapsed_at(events[i - 1])
            + POLL_INTERVAL_SECS * NANOS_PER_SEC
}

/// Where the pauses are kept, they add up.
proof fn lemma_polls_add_up(events: Seq<DrainEventView>, n: int)
    requires
        polls_spaced(events),
        1 <= n < events.len(),
    ensures
        elapsed_at(events[n]) >= (n - 1) * POLL_INTERVAL_SECS * NANOS_PER_SEC,
    decreases n,
{
    if n > 1 {
        lemma_polls_add_up(events, n - 1);
    }
}

/// A check whose pauses are kept comes to an end. The first event tells of the cluster's health
/// and every other one is a reading: a check that goes on has taken at most 24 readings, as many
/// as its time has pauses, and no check takes more than one beyond them.
pub proof fn a_check_with_pauses_ends(events: Seq<DrainEventView>)
    requires
        check_takes(events),
        polls_spaced(events),
    ensures
        check_after(events).phase == DrainPhase::NextQuery ==> events.len() <= 1 + 24
            && check_after(events).attempts <= 24,
        events.len() <= 1 + 24 + 1,
        forall|i: int| 0 <= i < events.len() ==> (i == 0 <==> (#[trigger] events[i]) is Health),
    decreases events.len(),
{
    lemma_course(events);
    if events.len() > 0 {
        let before = events.drop_last();
        assert(polls_spaced(before)) by {
            assert forall|i: int| 1 < i < before.len() implies elapsed_at(
                #[trigger] before[i],
            ) >= elapsed_at(before[i - 1]) + POLL_INTERVAL_SECS * NANOS_PER_SEC by {
                assert(before[i] == events[i]);
            }
        }
        a_check_with_pauses_ends(before);
        lemma_course(before);
        assert forall|i: int| 0 <= i < events.len() implies (i == 0 <==> (
        #[trigger] events[i]) is Health) by {
            if i < before.len() {
                assert(events[i] == before[i]);
            }
        }
    }
    if check_after(events).phase == DrainPhase::NextQuery {
        lemma_polls_add_up(events, events.len() - 1);
    }
}

/// A check with lag and time left reports the backlog if the lag adds up to more than 0, then
/// pauses and queries again.
pub proof fn a_check_with_lag_left_polls_again(events: Seq<DrainEventView>)
    requires
        check_takes(events),
        check_after(events).phase == DrainPhase::NextQuery,
    ensures
        check_after(events).request() matches Some(DrainActionView::Poll(backlog, pause)) && {
            &&& pause == POLL_INTERVAL_SECS
            &&& backlog is Some <==> total_lag(last_report(events)) > 0
            &&& backlog is Some ==> backlog->0.observed_lag == total_lag(last_report(events))
            &&& backlog is Some ==> backlog->0.lagging_partition_count == last_report(events).len()
        },
{
    lemma_course(events);
    let report = last_report(events);
    assert(report.take(report.len() as int) =~= report);
}

/// A cluster that did not recover is reported as such and in no other way: the check takes no
/// further event and comes to no conclusion about the consumers.
pub proof fn an_unreachable_cluster_gets_no_conclusion(events: Seq<DrainEventView>)
    requires
        check_takes(events),
        events.len() > 0,
        events[0] == DrainEventView::Health(false),
    ensures
        events.len() == 1,
        check_after(events).request() == Some(DrainActionView::ReportUnreachable),
    decreases events.len(),
{
    lemma_course(events);
    if events.len() > 1 {
        an_unreachable_cluster_gets_no_conclusion(events.drop_last());
        lemma_course(events.drop_last());
    } else {
        assert(events.drop_last() =~= Seq::<DrainEventView>::empty());
    }
}

/// A failed first query ends the check with an error and without a conclusion.
pub proof fn a_failed_first_query_fails_the_check(elapsed: int)
    ensures
        ({
            let asked = DrainView::initial().after(DrainEventView::Health(true));
            let event = DrainEventView::Reading(None, elapsed);
            &&& asked.accepts(event)
            &&& asked.after(event).request() == Some(DrainActionView::Fail)
        }),
{
}

/// A check that has ended takes no further event.
pub proof fn an_ended_check_takes_nothing(check: DrainView, event: DrainEventView)
    requires
        check.phase == DrainPhase::Unreachable || check.phase == DrainPhase::Failed || check.phase
            == DrainPhase::Concluded,
    ensures
        !check.accepts(event),
{
}

/// Where every entry of the last report shows lag, the check finds that the consumers have
/// caught up exactly when that report is empty.
pub proof fn caught_up_means_an_empty_report(events: Seq<DrainEventView>)
    requires
        check_takes(events),
        check_after(events).phase == DrainPhase::Concluded,
        all_positive(last_report(events)),
    ensures
        check_after(events).conclusion().all_caught_up <==> last_report(events).len() == 0,
{
    lemma_course(events);
    no_lag_in_total_means_no_entries(last_report(events));
}

/// Where the last report is the consumer lag of what the cluster said, the check finds that the
/// consumers have caught up exactly when every offset that a group has committed has reached
/// the known mark of its partition.
pub proof fn caught_up_means_every_mark_is_reached(
    events: Seq<DrainEventView>,
    topics: Seq<TopicView>,
    watermarks: Seq<Option<int>>,
    groups: Seq<GroupView>,
    committed: Seq<Option<Seq<OffsetView>>>,
)
    requires
        check_takes(events),
        check_after(events).phase == DrainPhase::Concluded,
        last_report(events) == consumer_lag(topics, watermarks, groups, committed),
    ensures
        check_after(events).conclusion().all_caught_up <==> forall|n: int, j: int|
            #[trigger] has_offset(committed, n, j) ==> !is_behind(
                recorded_marks(application_keys(topics), watermarks),
                committed[n]->0[j],
            ),
{
    lemma_course(events);
    zero_total_means_caught_up(topics, watermarks, groups, committed);
}

/// Where the last report is that of a query that ended well, the check finds that the consumers
/// have caught up exactly when the offsets of every group that counts were read, those for
/// application partitions without an error, and every offset that a group has committed for an
/// application partition has a known mark and has reached it.
pub proof fn caught_up_after_a_query_means_every_mark_is_reached(
    events: Seq<DrainEventView>,
    query_events: Seq<QueryEventView>,
)
    requires
        check_takes(events),
        check_after(events).phase == DrainPhase::Concluded,
        query_takes(query_events),
        query_after(query_events).phase == QueryPhase::Done,
        last_report(events) == query_after(query_events).lags,
    ensures
        check_after(events).conclusion().all_caught_up <==> all_read_and_reached(
            topics_told(query_events),
            watermarks_told(query_events),
            committed_told(query_events),
        ),
        committed_told(query_events).len() == counted_names(groups_told(query_events)).len(),
{
    a_query_reports_the_lag_it_was_told_of(query_events);
    zero_total_means_caught_up(
        topics_told(query_events),
        watermarks_told(query_events),
        groups_told(query_events),
        committed_told(query_events),
    );
    caught_up_means_an_empty_report(events);
    an_empty_report_means_all_was_read_and_reached(query_events);
}

/// The limits of a check: two minutes for the consumers to catch up, and five seconds between two
/// queries.
pub proof fn limits_of_a_check()
    ensures
        DRAIN_TIMEOUT_NANOS == 120 * NANOS_PER_SEC,
        POLL_INTERVAL_SECS == 5,
        NANOS_PER_SEC == 1_000_000_000,
{
}

/// The backlog that a report shows: the sum of its lags, over all of its entries.
pub open spec fn backlog_of(report: Seq<LagView>) -> Option<BacklogView> {
    if total_lag(report) > 0 {
        Some(
            BacklogView {
                observed_lag: total_lag(report),
                lagging_partition_count: report.len(),
            },
        )
    } else {
        None
    }
}

/// What a check asks for goes by what happened. A cluster that did not recover is reported; one
/// that did is queried, and a first query that fails is an error. After any other reading the
/// last report counts: with lag left and less than two minutes gone there is another query after
/// five seconds, else there is the conclusion.
pub proof fn a_check_asks_by_what_happened(events: Seq<DrainEventView>)
    requires
        check_takes(events),
    ensures
        check_after(events).request() == if events.len() == 0 {
            None
        } else if events[0] == DrainEventView::Health(false) {
            Some(DrainActionView::ReportUnreachable)
        } else if events.len() == 1 {
            Some(DrainActionView::ReportReached)
        } else if events[1] matches DrainEventView::Reading(None, _) {
            Some(DrainActionView::Fail)
        } else {
            let report = last_report(events);
            let total = total_lag(report);
            if total != 0 && elapsed_at(events.last()) < 120_000_000_000 {
                Some(DrainActionView::Poll(backlog_of(report), 5))
            } else {
                Some(
                    DrainActionView::Conclude(
                        backlog_of(report),
                        ConclusionView { all_caught_up: total == 0, final_lag_total: total },
                    ),
                )
            }
        },
{
    lemma_course(events);
}

/// A check holds the last report it was given, and counts the readings that were followed by
/// another query.
pub proof fn a_check_counts_its_queries(events: Seq<DrainEventView>)
    requires
        check_takes(events),
    ensures
        check_after(events).current == last_report(events),
        check_after(events).phase == DrainPhase::NextQuery ==> check_after(events).attempts
            == events.len() - 1,
        check_after(events).phase == DrainPhase::Concluded ==> check_after(events).attempts
            == events.len() - 2,
        events.len() <= 1 ==> check_after(events).attempts == 0,
{
    lemma_course(events);
}

/// A check takes exactly what it asked for: the cluster's health while it knows nothing of the
/// cluster, and a reading while it waits for a query. A failed first query is always taken. Any
/// other reading is taken exactly when the report that now counts adds up in 64 bits, and it ends
/// the check or the queries can still be counted in 32 bits.
pub proof fn a_check_takes_what_it_asked_for(check: DrainView, event: DrainEventView)
    ensures
        check.accepts(event) <==> match (check.request(), event) {
            (None, DrainEventView::Health(_)) => true,
            (
                Some(DrainActionView::ReportReached),
                DrainEventView::Reading(reading, elapsed),
            ) => reading is Some ==> {
                &&& total_fits(reading->0)
                &&& total_lag(reading->0) == 0 || elapsed >= 120_000_000_000 || check.attempts
                    < 0xffff_ffff
            },
            (
                Some(DrainActionView::Poll(_, _)),
                DrainEventView::Reading(reading, elapsed),
            ) => {
                let report = match reading {
                    Some(lags) => lags,
                    None => check.current,
                };
                &&& total_fits(report)
                &&& total_lag(report) == 0 || elapsed >= 120_000_000_000 || check.attempts
                    < 0xffff_ffff
            },
            _ => false,
        },
{
}

/// The outcome of a query, `None` where it failed, and the nanoseconds since the first one.
pub type TimedReading = (Option<Seq<LagView>>, int);

/// The events of a check that is told of a recovered cluster and of these readings.
pub open spec fn course(readings: Seq<TimedReading>) -> Seq<DrainEventView> {
    seq![DrainEventView::Health(true)] + readings.map_values(
        |r: TimedReading| DrainEventView::Reading(r.0, r.1),
    )
}

/// The report that counts after these readings: the last one of a query that did not fail.
pub open spec fn report_after(readings: Seq<TimedReading>) -> Seq<LagView>
    decreases readings.len(),
{
    if readings.len() == 0 {
        Seq::empty()
    } else {
        match readings.last().0 {
            Some(lags) => lags,
            None => report_after(readings.drop_last()),
        }
    }
}

/// Lag and time are left after these readings.
pub open spec fn goes_on(readings: Seq<TimedReading>) -> bool {
    &&& total_lag(report_after(readings)) != 0
    &&& readings.last().1 < 120_000_000_000
}

/// A check takes any readings: the first of a query that did not fail, each report adding up in
/// 64 bits, and each but the last leaving lag and time. It asks for another query exactly when
/// the last one leaves lag and time too, and concludes otherwise.
pub proof fn a_check_takes_any_readings(readings: Seq<TimedReading>)
    requires
        0 < readings.len() <= 0xffff_ffff,
        readings[0].0 is Some,
        forall|i: int|
            0 <= i < readings.len() && (#[trigger] readings[i]).0 is Some ==> total_fits(
                readings[i].0->0,
            ),
        forall|i: int| 0 < i < readings.len() ==> goes_on(#[trigger] readings.take(i)),
    ensures
        check_takes(course(readings)),
        last_report(course(readings)) == report_after(readings),
        check_after(course(readings)).phase == if goes_on(readings) {
            DrainPhase::NextQuery
        } else {
            DrainPhase::Concluded
        },
    decreases readings.len(),
{
    let events = course(readings);
    let rest = readings.drop_last();
    assert(events.drop_last() =~= course(rest));
    assert(events.last() == DrainEventView::Reading(readings.last().0, readings.last().1));
    if rest.len() == 0 {
        let first = seq![DrainEventView::Health(true)];
        assert(course(rest) =~= first);
        assert(first.drop_last() =~= Seq::<DrainEventView>::empty());
        reveal_with_fuel(check_takes, 3);
        reveal_with_fuel(check_after, 3);
        reveal_with_fuel(last_report, 3);
    } else {
        assert forall|i: int|
            0 <= i < rest.len() && (#[trigger] rest[i]).0 is Some implies total_fits(
            rest[i].0->0,
        ) by {
            assert(rest[i] == readings[i]);
        }
        assert forall|i: int| 0 < i < rest.len() implies goes_on(#[trigger] rest.take(i)) by {
            assert(rest.take(i) =~= readings.take(i));
        }
        a_check_takes_any_readings(rest);
        assert(readings.take(rest.len() as int) =~= rest);
        assert(goes_on(rest));
        lemma_course(course(rest));
        assert(course(rest).len() == readings.len());
        assert(readings[readings.len() - 1] == readings.last());
    }
}

/// A check whose consumers never catch up takes readings for the whole of its time: any series
/// of up to 25 readings five seconds apart, each showing lag that adds up in 64 bits, is taken,
/// and the first 24 of them are followed by another query.
pub proof fn a_check_polls_for_the_whole_time(reports: Seq<Seq<LagView>>)
    requires
        0 < reports.len() <= 25,
        forall|i: int|
            0 <= i < reports.len() ==> total_fits(#[trigger] reports[i]) && total_lag(reports[i])
                != 0,
    ensures
        ({
            let events = course(
                Seq::new(
                    reports.len(),
                    |i: int| (Some(reports[i]), i * 5 * NANOS_PER_SEC),
                ),
            );
            &&& check_takes(events)
            &&& check_after(events).phase == if reports.len() <= 24 {
                DrainPhase::NextQuery
            } else {
                DrainPhase::Concluded
            }
        }),
{
    let readings = Seq::new(
        reports.len(),
        |i: int| (Some(reports[i]), i * 5 * NANOS_PER_SEC),
    );
    assert forall|i: int|
        0 <= i < readings.len() && (#[trigger] readings[i]).0 is Some implies total_fits(
        readings[i].0->0,
    ) by {
        assert(readings[i].0->0 == reports[i]);
    }
    assert forall|i: int| 0 < i < readings.len() implies goes_on(#[trigger] readings.take(i)) by {
        assert(readings.take(i).last() == readings[i - 1]);
        assert(total_lag(reports[i - 1]) != 0);
    }
    assert(readings.last() == readings[readings.len() - 1]);
    assert(total_lag(reports[reports.len() - 1]) != 0);
    a_check_takes_any_readings(readings);
}

} // verus!
