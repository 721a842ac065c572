//! What a whole wait for the cluster comes to.

use vstd::arithmetic::power2::{
    lemma2_to64, lemma_pow2_pos, lemma_pow2_strictly_increases, lemma_pow2_unfold, pow2,
};
use vstd::prelude::*;

use crate::health::{
    backoff, HealthAction, HealthView, Probe, HEALTH_TIMEOUT_SECS, MAX_BACKOFF_SECS, MIN_BROKERS,
};

verus! {

/// The nanoseconds in a second.
pub const NANOS_PER_SEC: u64 = 1_000_000_000;

/// A probe and the nanoseconds since the wait began.
pub type TimedProbe = (Probe, int);

/// What a wait comes to after a series of probes: whether the cluster has recovered, or `None`
/// while the wait goes on.
pub open spec fn outcome(wait: HealthView, probes: Seq<TimedProbe>) -> Option<bool>
    decreases probes.len(),
{
    if probes.len() == 0 {
        None
    } else {
        let (probe, elapsed) = probes[0];
        match wait.reaction(probe, elapsed) {
            HealthAction::Recovered => Some(true),
            HealthAction::TimedOut => Some(false),
            HealthAction::Retry(_) => outcome(wait.after(probe, elapsed), probes.drop_first()),
        }
    }
}

/// The first `n` probes found too few brokers, each before the time was up.
pub open spec fn keeps_waiting(timeout: int, probes: Seq<TimedProbe>, n: int) -> bool {
    forall|i: int|
        0 <= i < n ==> !(#[trigger] probes[i]).0.healthy() && probes[i].1 < timeout
}

/// The wait ends at probe `n`.
pub open spec fn ends_at(timeout: int, probes: Seq<TimedProbe>, n: int) -> bool {
    &&& 0 <= n < probes.len()
    &&& keeps_waiting(timeout, probes, n)
    &&& probes[n].0.healthy() || probes[n].1 >= timeout
}

/// The probe found enough brokers, and in time.
pub open spec fn in_time(timeout: int, probe: TimedProbe) -> bool {
    probe.0.healthy() && probe.1 <= timeout
}

/// A wait ends at the first probe that finds enough brokers or comes when the time is up. The
/// cluster has recovered exactly when that probe finds enough brokers, and in time.
pub proof fn a_wait_ends_with_enough_brokers_or_no_time(wait: HealthView, probes: Seq<TimedProbe>)
    ensures
        outcome(wait, probes) == Some(true) <==> exists|n: int|
            #[trigger] ends_at(wait.timeout, probes, n) && in_time(wait.timeout, probes[n]),
        outcome(wait, probes) == Some(false) <==> exists|n: int|
            #[trigger] ends_at(wait.timeout, probes, n) && !in_time(wait.timeout, probes[n]),
        outcome(wait, probes) is None <==> keeps_waiting(
            wait.timeout,
            probes,
            probes.len() as int,
        ),
    decreases probes.len(),
{
    let t = wait.timeout;
    if probes.len() > 0 {
        let (probe, elapsed) = probes[0];
        let rest = probes.drop_first();
        if wait.reaction(probe, elapsed) is Retry {
            a_wait_ends_with_enough_brokers_or_no_time(wait.after(probe, elapsed), rest);
            assert forall|n: int| #[trigger] ends_at(t, rest, n) implies ends_at(t, probes, n + 1)
                && probes[n + 1] == rest[n] by {
                assert forall|i: int| 0 <= i < n + 1 implies !(#[trigger] probes[i]).0.healthy()
                    && probes[i].1 < t by {
                    if i > 0 {
                        assert(probes[i] == rest[i - 1]);
                    }
                }
            }
            assert forall|n: int| #[trigger] ends_at(t, probes, n) implies n > 0 && ends_at(
                t,
                rest,
                n - 1,
            ) && rest[n - 1] == probes[n] by {
                assert forall|i: int| 0 <= i < n - 1 implies !(#[trigger] rest[i]).0.healthy()
                    && rest[i].1 < t by {
                    assert(rest[i] == probes[i + 1]);
                }
            }
            if keeps_waiting(t, rest, rest.len() as int) {
                assert forall|i: int| 0 <= i < probes.len() implies !(
                #[trigger] probes[i]).0.healthy() && probes[i].1 < t by {
                    if i > 0 {
                        assert(probes[i] == rest[i - 1]);
                    }
                }
            }
            if keeps_waiting(t, probes, probes.len() as int) {
                assert forall|i: int| 0 <= i < rest.len() implies !(
                #[trigger] rest[i]).0.healthy() && rest[i].1 < t by {
                    assert(rest[i] == probes[i + 1]);
                }
            }
            if outcome(wait, probes) == Some(true) {
                let n = choose|n: int| #[trigger] ends_at(t, rest, n) && in_time(t, rest[n]);
                assert(ends_at(t, probes, n + 1));
            }
            if outcome(wait, probes) == Some(false) {
                let n = choose|n: int| #[trigger] ends_at(t, rest, n) && !in_time(t, rest[n]);
                assert(ends_at(t, probes, n + 1));
            }
            if exists|n: int| #[trigger] ends_at(t, probes, n) && in_time(t, probes[n]) {
                let n = choose|n: int| #[trigger] ends_at(t, probes, n) && in_time(t, probes[n]);
                assert(ends_at(t, rest, n - 1) && in_time(t, rest[n - 1]));
            }
            if exists|n: int| #[trigger] ends_at(t, probes, n) && !in_time(t, probes[n]) {
                let n = choose|n: int| #[trigger] ends_at(t, probes, n) && !in_time(t, probes[n]);
                assert(ends_at(t, rest, n - 1) && !in_time(t, rest[n - 1]));
            }
        } else {
            assert(ends_at(t, probes, 0));
            assert forall|n: int| #[trigger] ends_at(t, probes, n) implies n == 0 by {
                if n > 0 {
                    assert(!probes[0].0.healthy() && probes[0].1 < t);
                }
            }
        }
    }
}

/// A wait does not outlast its time: a probe made when the time is up is the last one.
pub proof fn a_late_probe_is_the_last(wait: HealthView, probes: Seq<TimedProbe>, n: int)
    requires
        0 <= n < probes.len(),
        probes[n].1 >= wait.timeout,
    ensures
        outcome(wait, probes) is Some,
{
    a_wait_ends_with_enough_brokers_or_no_time(wait, probes);
}

/// Each probe ends at least the pause that was asked for after the one before it.
pub open spec fn pauses_kept(wait: HealthView, probes: Seq<TimedProbe>) -> bool {
    forall|i: int|
        0 < i < probes.len() ==> (#[trigger] probes[i]).1 >= probes[i - 1].1 + backoff(
            wait.attempt + i - 1,
        ) * NANOS_PER_SEC
}

/// A wait whose pauses are kept comes to an end: no pause is shorter than a second, so it has
/// ended once as many probes as the timeout has seconds came before the last one.
pub proof fn a_wait_with_pauses_ends(wait: HealthView, probes: Seq<TimedProbe>, n: int)
    requires
        wait.attempt >= 1,
        0 <= n < probes.len(),
        probes[0].1 >= 0,
        pauses_kept(wait, probes),
        n * NANOS_PER_SEC >= wait.timeout,
    ensures
        outcome(wait, probes) is Some,
{
    lemma_pauses_add_up(wait, probes, n);
    a_late_probe_is_the_last(wait, probes, n);
}

/// Where the pauses are kept, at least a second lies between any two probes.
proof fn lemma_pauses_add_up(wait: HealthView, probes: Seq<TimedProbe>, n: int)
    requires
        wait.attempt >= 1,
        0 <= n < probes.len(),
        probes[0].1 >= 0,
        pauses_kept(wait, probes),
    ensures
        probes[n].1 >= n * NANOS_PER_SEC,
    decreases n,
{
    if n > 0 {
        lemma_pauses_add_up(wait, probes, n - 1);
        pauses_double_up_to_the_limit(wait.attempt + n - 1);
    }
}

/// Pauses start at one second and double until they reach the limit, where they stay.
pub proof fn pauses_double_up_to_the_limit(attempt: int)
    requires
        attempt >= 1,
    ensures
        backoff(1) == 1,
        1 <= backoff(attempt) <= MAX_BACKOFF_SECS,
        backoff(attempt) <= backoff(attempt + 1),
        backoff(attempt + 1) == if 2 * backoff(attempt) < MAX_BACKOFF_SECS {
            2 * backoff(attempt)
        } else {
            MAX_BACKOFF_SECS as int
        },
{
    lemma2_to64();
    lemma_pow2_pos((attempt - 1) as nat);
    lemma_pow2_unfold(attempt as nat);
}

/// The limit is reached with the fifth pause.
pub proof fn pauses_reach_the_limit(attempt: int)
    requires
        attempt >= 5,
    ensures
        backoff(attempt) == MAX_BACKOFF_SECS,
{
    lemma2_to64();
    if attempt > 5 {
        lemma_pow2_strictly_increases(4, (attempt - 1) as nat);
    }
}

/// The limits of a wait: three brokers, pauses of up to ten seconds, two minutes in all.
pub proof fn limits_of_a_wait()
    ensures
        MIN_BROKERS == 3,
        MAX_BACKOFF_SECS == 10,
        HEALTH_TIMEOUT_SECS == 120,
{
}

/// The brokers that a probe found: none where it failed.
pub open spec fn brokers_found(probe: Probe) -> int {
    match probe {
        Probe::Brokers(n) => n as int,
        Probe::ClientFailed => 0,
        Probe::MetadataFailed => 0,
    }
}

/// A probe is judged by the number of brokers alone: three or more are enough. With enough
/// brokers no later than the timeout the cluster has recovered; otherwise the time is up from
/// the timeout on, and before it the cluster is probed again.
pub proof fn three_brokers_in_time_are_enough(wait: HealthView, probe: Probe, elapsed: int)
    ensures
        probe.healthy() <==> brokers_found(probe) >= 3,
        wait.reaction(probe, elapsed) == HealthAction::Recovered <==> brokers_found(probe) >= 3
            && elapsed <= wait.timeout,
        wait.reaction(probe, elapsed) == HealthAction::TimedOut <==> elapsed > wait.timeout || (
        elapsed == wait.timeout && brokers_found(probe) < 3),
        wait.reaction(probe, elapsed) is Retry <==> elapsed < wait.timeout && brokers_found(probe)
            < 3,
{
}

/// The seconds that a wait asks its driver to pause for.
pub open spec fn pause_of(action: HealthAction) -> int {
    match action {
        HealthAction::Retry(secs) => secs as int,
        _ => 0,
    }
}

/// Whatever a probe found, the pause after it goes by its number alone: a power of two, up to ten
/// seconds. Of two probes that follow each other, the second is followed by a pause twice as
/// long as the first, up to ten seconds.
pub proof fn pauses_go_by_the_number_of_the_probe(
    wait: HealthView,
    first: TimedProbe,
    second: TimedProbe,
)
    requires
        wait.attempt >= 1,
        wait.reaction(first.0, first.1) is Retry,
    ensures
        ({
            let next = wait.after(first.0, first.1);
            let pause = pause_of(wait.reaction(first.0, first.1));
            let doubled = pow2((wait.attempt - 1) as nat);
            &&& pause == backoff(wait.attempt)
            &&& pause == if doubled < 10 {
                doubled as int
            } else {
                10
            }
            &&& 1 <= pause <= 10
            &&& next.timeout == wait.timeout
            &&& next.attempt == wait.attempt + 1
            &&& next.reaction(second.0, second.1) is Retry ==> pause_of(
                next.reaction(second.0, second.1),
            ) == if 2 * pause < 10 {
                2 * pause
            } else {
                10
            }
        }),
{
    pauses_double_up_to_the_limit(wait.attempt);
    pauses_double_up_to_the_limit(wait.attempt + 1);
}

/// A wait that has ended stays as it was.
pub proof fn the_last_probe_changes_nothing(wait: HealthView, probe: Probe, elapsed: int)
    requires
        !(wait.reaction(probe, elapsed) is Retry),
    ensures
        wait.after(probe, elapsed) == wait,
{
}

/// A wait after a series of probes.
pub open spec fn wait_after(wait: HealthView, probes: Seq<TimedProbe>) -> HealthView
    decreases probes.len(),
{
    if probes.len() == 0 {
        wait
    } else {
        let (probe, elapsed) = probes.last();
        wait_after(wait, probes.drop_last()).after(probe, elapsed)
    }
}

/// A wait takes the probes one after the other.
pub open spec fn wait_takes(wait: HealthView, probes: Seq<TimedProbe>) -> bool
    decreases probes.len(),
{
    probes.len() > 0 ==> {
        let (probe, elapsed) = probes.last();
        &&& wait_takes(wait, probes.drop_last())
        &&& wait_after(wait, probes.drop_last()).accepts(probe, elapsed)
    }
}

/// A wait takes every probe as long as the probes can be numbered in 32 bits, and after that
/// every probe that ends it.
pub proof fn a_wait_takes_every_probe(wait: HealthView, probe: Probe, elapsed: int)
    ensures
        wait.accepts(probe, elapsed) <==> wait.attempt < 0xffff_ffff || elapsed >= wait.timeout
            || brokers_found(probe) >= 3,
{
}

/// Probes are counted: from the first on, a wait takes any series of probes that can be numbered
/// in 32 bits, and as long as none of them ends it, the pause after each is the power of two for
/// its place in the series, up to ten seconds.
pub proof fn each_probe_has_its_pause(timeout: int, probes: Seq<TimedProbe>)
    requires
        probes.len() < 0xffff_ffff,
    ensures
        ({
            let wait = HealthView { timeout, attempt: 1 };
            &&& wait_takes(wait, probes)
            &&& wait_after(wait, probes).timeout == timeout
            &&& 1 <= wait_after(wait, probes).attempt <= 1 + probes.len()
            &&& keeps_waiting(timeout, probes, probes.len() as int) ==> {
                &&& wait_after(wait, probes).attempt == 1 + probes.len()
                &&& probes.len() > 0 ==> {
                    let before = wait_after(wait, probes.drop_last());
                    let (probe, elapsed) = probes.last();
                    let doubled = pow2((probes.len() - 1) as nat);
                    before.reaction(probe, elapsed) == HealthAction::Retry(
                        if doubled < 10 {
                            doubled as u64
                        } else {
                            10
                        },
                    )
                }
            }
        }),
    decreases probes.len(),
{
    if probes.len() > 0 {
        let rest = probes.drop_last();
        each_probe_has_its_pause(timeout, rest);
        if keeps_waiting(timeout, probes, probes.len() as int) {
            assert forall|i: int| 0 <= i < rest.len() implies !(#[trigger] rest[i]).0.healthy()
                && rest[i].1 < timeout by {
                assert(rest[i] == probes[i]);
            }
            assert(probes[probes.len() - 1] == probes.last());
        }
    }
}

} // verus!
