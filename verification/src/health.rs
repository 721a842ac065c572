//! The wait for the cluster to come back.
//!
//! The cluster is probed again and again, with pauses that double up to a limit, until a probe
//! finds enough brokers or the time is up. The time limit is a hard one: what a probe finds after
//! it no longer counts.

use vstd::arithmetic::power2::{lemma2_to64, lemma_pow2_strictly_increases, pow2};
use vstd::prelude::*;

verus! {

/// The number of brokers from which on the cluster counts as recovered.
pub const MIN_BROKERS: usize = 3;

/// The longest pause between two probes, in seconds.
pub const MAX_BACKOFF_SECS: u64 = 10;

/// How long the cluster may take to recover, in seconds.
pub const HEALTH_TIMEOUT_SECS: u64 = 120;

/// What a probe of the cluster found.
#[derive(Debug, Clone, Copy, PartialEq, Eq, Structural)]
pub enum Probe {
    /// No client could be made.
    ClientFailed,
    /// The cluster's metadata could not be read.
    MetadataFailed,
    /// The metadata lists this many brokers.
    Brokers(usize),
}

/// What to do after a probe.
#[derive(Debug, Clone, Copy, PartialEq, Eq, Structural)]
pub enum HealthAction {
    /// Stop: the cluster has recovered.
    Recovered,
    /// Stop: the cluster did not recover in time.
    TimedOut,
    /// Pause for this many seconds, then probe again.
    Retry(u64),
}

impl Probe {
    /// The probe found enough brokers.
    pub open spec fn healthy(self) -> bool {
        self matches Probe::Brokers(n) && n >= MIN_BROKERS
    }

    /// Tells whether the probe found enough brokers.
    pub fn is_healthy(self) -> (healthy: bool)
        ensures
            healthy == self.healthy(),
    {
        match self {
            Probe::Brokers(n) => n >= MIN_BROKERS,
            Probe::ClientFailed => false,
            Probe::MetadataFailed => false,
        }
    }
}

/// The pause after the `attempt`-th probe, in seconds: a power of two, up to the limit.
pub open spec fn backoff(attempt: int) -> int {
    let doubled = pow2((attempt - 1) as nat) as int;
    if doubled < MAX_BACKOFF_SECS {
        doubled
    } else {
        MAX_BACKOFF_SECS as int
    }
}

/// Computes the pause after the `attempt`-th probe.
pub fn backoff_secs(attempt: u32) -> (secs: u64)
    requires
        attempt >= 1,
    ensures
        secs == backoff(attempt as int),
{
    let exponent: u32 = attempt - 1;
    proof {
        lemma2_to64();
        if exponent > 4 {
            lemma_pow2_strictly_increases(4, exponent as nat);
        }
    }
    if exponent == 0 {
        1
    } else if exponent == 1 {
        2
    } else if exponent == 2 {
        4
    } else if exponent == 3 {
        8
    } else {
        MAX_BACKOFF_SECS
    }
}

/// A wait as contracts see it: the time that it may take, in nanoseconds, and the number of the
/// probe that comes next or came last, counted from 1.
pub struct HealthView {
    pub timeout: int,
    pub attempt: int,
}

impl HealthView {
    /// What a probe leads to, given the nanoseconds since the wait began.
    pub open spec fn reaction(self, probe: Probe, elapsed: int) -> HealthAction {
        if probe.healthy() && elapsed <= self.timeout {
            HealthAction::Recovered
        } else if elapsed >= self.timeout {
            HealthAction::TimedOut
        } else {
            HealthAction::Retry(backoff(self.attempt) as u64)
        }
    }

    /// The wait after a probe.
    pub open spec fn after(self, probe: Probe, elapsed: int) -> HealthView {
        if self.reaction(probe, elapsed) is Retry {
            HealthView { attempt: self.attempt + 1, ..self }
        } else {
            self
        }
    }

    /// The probes still have numbers.
    pub open spec fn accepts(self, probe: Probe, elapsed: int) -> bool {
        self.reaction(probe, elapsed) is Retry ==> self.attempt < u32::MAX
    }
}

/// A wait for the cluster.
#[derive(Debug)]
pub struct HealthWait {
    timeout: u128,
    attempt: u32,
}

impl View for HealthWait {
    type V = HealthView;

    closed spec fn view(&self) -> HealthView {
        HealthView { timeout: self.timeout as int, attempt: self.attempt as int }
    }
}

impl HealthWait {
    #[verifier::type_invariant]
    spec fn well_formed(self) -> bool {
        self.attempt >= 1
    }

    /// A wait that may take `timeout` nanoseconds, before its first probe.
    pub fn new(timeout: u128) -> (wait: Self)
        ensures
            wait@ == (HealthView { timeout: timeout as int, attempt: 1 }),
    {
        HealthWait { timeout, attempt: 1 }
    }

    /// The number of the probe that comes next or came last.
    pub fn attempt(&self) -> (attempt: u32)
        ensures
            attempt == self@.attempt,
            attempt >= 1,
    {
        proof {
            use_type_invariant(self);
        }
        self.attempt
    }

    /// Tells whether the wait can go on with a probe made `elapsed` nanoseconds after the wait
    /// began.
    pub fn accepts(&self, probe: Probe, elapsed: u128) -> (accepted: bool)
        ensures
            accepted == self@.accepts(probe, elapsed as int),
    {
        probe.is_healthy() || elapsed >= self.timeout || self.attempt < u32::MAX
    }

    /// Goes on with a probe made `elapsed` nanoseconds after the wait began.
    pub fn step(&mut self, probe: Probe, elapsed: u128) -> (action: HealthAction)
        requires
            old(self)@.accepts(probe, elapsed as int),
        ensures
            action == old(self)@.reaction(probe, elapsed as int),
            final(self)@ == old(self)@.after(probe, elapsed as int),
    {
        proof {
            use_type_invariant(&*self);
        }
        if probe.is_healthy() && elapsed <= self.timeout {
            return HealthAction::Recovered;
        }
        if elapsed >= self.timeout {
            return HealthAction::TimedOut;
        }
        let pause: u64 = backoff_secs(self.attempt);
        self.attempt = self.attempt + 1;
        HealthAction::Retry(pause)
    }
}

} // verus!
