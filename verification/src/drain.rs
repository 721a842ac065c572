//! The drain check: does the consumers' lag go away once the cluster is back?

use vstd::prelude::*;

use crate::lag::{checked_sum, sum_lags, total_fits, total_lag};
use crate::model::{lag_views, LagView, PartitionLag};

verus! {

/// How long the consumers may take to catch up, in nanoseconds.
pub const DRAIN_TIMEOUT_NANOS: u128 = 120_000_000_000;

/// The pause between two lag queries, in seconds.
pub const POLL_INTERVAL_SECS: u64 = 5;

/// What a drain check waits for, or how it ended.
#[derive(Debug, Clone, Copy, PartialEq, Eq, Structural)]
pub enum DrainPhase {
    /// For the outcome of the wait for the cluster.
    Health,
    /// For the first lag query.
    FirstQuery,
    /// For a later lag query.
    NextQuery,
    /// The cluster did not recover.
    Unreachable,
    /// The first lag query failed.
    Failed,
    /// The check has come to a conclusion.
    Concluded,
}

/// What the driver of a drain check learned.
#[derive(Debug)]
pub enum DrainEvent {
    /// Whether the cluster recovered in time.
    Health(bool),
    /// The report of a lag query, or `None` if it failed, and the nanoseconds from the end of
    /// the first query to now.
    Reading(Option<Vec<PartitionLag>>, u128),
}

/// An event as contracts see it.
pub enum DrainEventView {
    Health(bool),
    Reading(Option<Seq<LagView>>, int),
}

impl View for DrainEvent {
    type V = DrainEventView;

    open spec fn view(&self) -> DrainEventView {
        match *self {
            DrainEvent::Health(recovered) => DrainEventView::Health(recovered),
            DrainEvent::Reading(Some(lags), elapsed) => DrainEventView::Reading(
                Some(lag_views(lags@)),
                elapsed as int,
            ),
            DrainEvent::Reading(None, elapsed) => DrainEventView::Reading(None, elapsed as int),
        }
    }
}

/// A backlog that was seen: its size, and the number of partitions with a share in it.
#[derive(Debug, Clone, Copy, PartialEq, Eq, Structural)]
pub struct Backlog {
    pub observed_lag: i64,
    pub lagging_partition_count: usize,
}

/// The outcome of a drain check.
#[derive(Debug, Clone, Copy, PartialEq, Eq, Structural)]
pub struct Conclusion {
    /// Every group that counts has caught up.
    pub all_caught_up: bool,
    /// The lag that was left.
    pub final_lag_total: i64,
}

/// What the driver of a drain check has to do next.
#[derive(Debug, Clone, Copy, PartialEq, Eq, Structural)]
pub enum DrainAction {
    /// Report that the cluster did not recover, and stop.
    ReportUnreachable,
    /// Report that the check was reached, and query the lag.
    ReportReached,
    /// Stop with an error: the first lag query failed.
    Fail,
    /// Report the backlog if there is one, pause for this many seconds, and query the lag again.
    Poll(Option<Backlog>, u64),
    /// Report the backlog if there is one, then report the conclusion, and stop.
    Conclude(Option<Backlog>, Conclusion),
}

/// A backlog as contracts see it.
pub struct BacklogView {
    pub observed_lag: int,
    pub lagging_partition_count: nat,
}

impl View for Backlog {
    type V = BacklogView;

    open spec fn view(&self) -> BacklogView {
        BacklogView {
            observed_lag: self.observed_lag as int,
            lagging_partition_count: self.lagging_partition_count as nat,
        }
    }
}

/// A conclusion as contracts see it.
pub struct ConclusionView {
    pub all_caught_up: bool,
    pub final_lag_total: int,
}

impl View for Conclusion {
    type V = ConclusionView;

    open spec fn view(&self) -> ConclusionView {
        ConclusionView {
            all_caught_up: self.all_caught_up,
            final_lag_total: self.final_lag_total as int,
        }
    }
}

/// An action as contracts see it.
pub enum DrainActionView {
    ReportUnreachable,
    ReportReached,
    Fail,
    Poll(Option<BacklogView>, int),
    Conclude(Option<BacklogView>, ConclusionView),
}

/// The view of a backlog, if there is one.
pub open spec fn backlog_view(backlog: Option<Backlog>) -> Option<BacklogView> {
    match backlog {
        Some(b) => Some(b@),
        None => None,
    }
}

impl View for DrainAction {
    type V = DrainActionView;

    open spec fn view(&self) -> DrainActionView {
        match *self {
            DrainAction::ReportUnreachable => DrainActionView::ReportUnreachable,
            DrainAction::ReportReached => DrainActionView::ReportReached,
            DrainAction::Fail => DrainActionView::Fail,
            DrainAction::Poll(backlog, pause) => DrainActionView::Poll(
                backlog_view(backlog),
                pause as int,
            ),
            DrainAction::Conclude(backlog, conclusion) => DrainActionView::Conclude(
                backlog_view(backlog),
                conclusion@,
            ),
        }
    }
}

/// A drain check as contracts see it.
#[verifier::ext_equal]
pub struct DrainView {
    pub phase: DrainPhase,
    /// The report of the last lag query that did not fail.
    pub current: Seq<LagView>,
    /// The number of lag queries after the first.
    pub attempts: nat,
}

impl DrainView {
    /// A drain check before its first event.
    pub open spec fn initial() -> DrainView {
        DrainView { phase: DrainPhase::Health, current: Seq::empty(), attempts: 0 }
    }

    /// The report that counts once a lag query has given `reading`: a failed query leaves the
    /// report before it in place.
    pub open spec fn latest(self, reading: Option<Seq<LagView>>) -> Seq<LagView> {
        match reading {
            Some(lags) => lags,
            None => self.current,
        }
    }

    /// There is no lag left, or no time.
    pub open spec fn ends(self, reading: Option<Seq<LagView>>, elapsed: int) -> bool {
        total_lag(self.latest(reading)) == 0 || elapsed >= DRAIN_TIMEOUT_NANOS
    }

    /// The event answers what the check asked, the lag in it adds up in 64 bits, and the queries
    /// can still be counted.
    pub open spec fn accepts(self, event: DrainEventView) -> bool {
        match event {
            DrainEventView::Health(_) => self.phase == DrainPhase::Health,
            DrainEventView::Reading(reading, elapsed) => {
                ||| self.phase == DrainPhase::FirstQuery && reading is None
                ||| {
                    &&& self.phase == DrainPhase::FirstQuery || self.phase
                        == DrainPhase::NextQuery
                    &&& total_fits(self.latest(reading))
                    &&& !self.ends(reading, elapsed) ==> self.attempts < u32::MAX
                }
            },
        }
    }

    /// The drain check after an event that it accepts.
    pub open spec fn after(self, event: DrainEventView) -> DrainView {
        match event {
            DrainEventView::Health(recovered) => DrainView {
                phase: if recovered {
                    DrainPhase::FirstQuery
                } else {
                    DrainPhase::Unreachable
                },
                ..self
            },
            DrainEventView::Reading(reading, elapsed) => if self.phase == DrainPhase::FirstQuery
                && reading is None {
                DrainView { phase: DrainPhase::Failed, ..self }
            } else if self.ends(reading, elapsed) {
                DrainView {
                    phase: DrainPhase::Concluded,
                    current: self.latest(reading),
                    ..self
                }
            } else {
                DrainView {
                    phase: DrainPhase::NextQuery,
                    current: self.latest(reading),
                    attempts: self.attempts + 1,
                }
            },
        }
    }

    /// The backlog to report: there is one while lag is left.
    pub open spec fn backlog(self) -> Option<BacklogView> {
        if total_lag(self.current) > 0 {
            Some(
                BacklogView {
                    observed_lag: total_lag(self.current),
                    lagging_partition_count: self.current.len(),
                },
            )
        } else {
            None
        }
    }

    /// The conclusion: the lag that is left, and whether there is none.
    pub open spec fn conclusion(self) -> ConclusionView {
        ConclusionView {
            all_caught_up: total_lag(self.current) == 0,
            final_lag_total: total_lag(self.current),
        }
    }

    /// What the check asks of its driver, once it knows about the cluster.
    pub open spec fn request(self) -> Option<DrainActionView> {
        match self.phase {
            DrainPhase::Health => None,
            DrainPhase::FirstQuery => Some(DrainActionView::ReportReached),
            DrainPhase::NextQuery => Some(
                DrainActionView::Poll(self.backlog(), POLL_INTERVAL_SECS as int),
            ),
            DrainPhase::Unreachable => Some(DrainActionView::ReportUnreachable),
            DrainPhase::Failed => Some(DrainActionView::Fail),
            DrainPhase::Concluded => Some(
                DrainActionView::Conclude(self.backlog(), self.conclusion()),
            ),
        }
    }
}

/// A drain check under way.
#[derive(Debug)]
pub struct DrainCheck {
    phase: DrainPhase,
    current: Vec<PartitionLag>,
    attempts: u32,
}

impl View for DrainCheck {
    type V = DrainView;

    closed spec fn view(&self) -> DrainView {
        DrainView {
            phase: self.phase,
            current: lag_views(self.current@),
            attempts: self.attempts as nat,
        }
    }
}

impl DrainCheck {
    /// A drain check whose driver has to wait for the cluster first.
    pub fn new() -> (check: Self)
        ensures
            check@ == DrainView::initial(),
    {
        let check = DrainCheck { phase: DrainPhase::Health, current: Vec::new(), attempts: 0 };
        assert(check@ =~= DrainView::initial());
        check
    }

    /// What the check waits for, or how it ended.
    pub fn phase(&self) -> (phase: DrainPhase)
        ensures
            phase == self@.phase,
    {
        self.phase
    }

    /// The report of the last lag query that did not fail.
    pub fn current(&self) -> (lags: &Vec<PartitionLag>)
        ensures
            lag_views(lags@) == self@.current,
    {
        &self.current
    }

    /// The number of lag queries after the first.
    pub fn attempts(&self) -> (attempts: u32)
        ensures
            attempts == self@.attempts,
    {
        self.attempts
    }

    /// Tells whether the check can go on with an event.
    pub fn accepts(&self, event: &DrainEvent) -> (accepted: bool)
        ensures
            accepted == self@.accepts(event@),
    {
        match event {
            DrainEvent::Health(_) => self.phase == DrainPhase::Health,
            DrainEvent::Reading(reading, elapsed) => {
                if self.phase == DrainPhase::FirstQuery && reading.is_none() {
                    return true;
                }
                if self.phase != DrainPhase::FirstQuery && self.phase != DrainPhase::NextQuery {
                    return false;
                }
                let sum = match reading {
                    Some(lags) => checked_sum(lags),
                    None => checked_sum(&self.current),
                };
                match sum {
                    Some(total) => total == 0 || *elapsed >= DRAIN_TIMEOUT_NANOS || self.attempts
                        < u32::MAX,
                    None => false,
                }
            },
        }
    }

    /// Goes on with an event: works it into the check's state and asks for the next thing.
    pub fn step(&mut self, event: DrainEvent) -> (action: DrainAction)
        requires
            old(self)@.accepts(event@),
        ensures
            final(self)@ == old(self)@.after(event@),
            final(self)@.request() == Some(action@),
    {
        let ghost before = self@;
        let ghost happened = event@;
        match event {
            DrainEvent::Health(recovered) => {
                if recovered {
                    self.phase = DrainPhase::FirstQuery;
                    DrainAction::ReportReached
                } else {
                    self.phase = DrainPhase::Unreachable;
                    DrainAction::ReportUnreachable
                }
            },
            DrainEvent::Reading(reading, elapsed) => {
                match reading {
                    Some(lags) => {
                        self.current = lags;
                    },
                    None => {
                        if self.phase == DrainPhase::FirstQuery {
                            self.phase = DrainPhase::Failed;
                            return DrainAction::Fail;
                        }
                    },
                }
                let total: i64 = sum_lags(&self.current);
                let backlog: Option<Backlog> = if total > 0 {
                    Some(
                        Backlog {
                            observed_lag: total,
                            lagging_partition_count: self.current.len(),
                        },
                    )
                } else {
                    None
                };
                if total == 0 || elapsed >= DRAIN_TIMEOUT_NANOS {
                    self.phase = DrainPhase::Concluded;
                    let conclusion = Conclusion {
                        all_caught_up: total == 0,
                        final_lag_total: total,
                    };
                    DrainAction::Conclude(backlog, conclusion)
                } else {
                    self.attempts = self.attempts + 1;
                    self.phase = DrainPhase::NextQuery;
                    assert(self@ =~= before.after(happened));
                    DrainAction::Poll(backlog, POLL_INTERVAL_SECS)
                }
            },
        }
    }
}

} // verus!
