use vstd::prelude::*;
use std::sync::Arc;
use std::sync::atomic::{AtomicU64, Ordering};
use std::time::{Duration, Instant};

verus! {

#[verifier::external_type_specification]
#[verifier::external_body]
pub struct ExInstant(Instant);

/// `Instant::now`: a reading of the monotonic clock. Nothing is stated of it.
#[verifier::external_body]
fn clock_now() -> Instant {
    Instant::now()
}

/// `Instant::elapsed`: the time the monotonic clock has run since `epoch`. Nothing is
/// stated of it.
#[verifier::external_body]
fn clock_elapsed(epoch: &Arc<Instant>) -> Duration {
    epoch.elapsed()
}

/// `Duration::as_nanos`: the whole nanoseconds of a duration. Nothing is stated of the
/// number, the duration being opaque here.
#[verifier::external_body]
fn duration_nanos(d: &Duration) -> u128 {
    d.as_nanos()
}

/// Hands out sequence numbers, one after another from 1, each with a timestamp in
/// nanoseconds since an epoch that all users of the engine share.
pub struct Sequencer {
    next: AtomicU64,
    epoch: Arc<Instant>,
}

impl Sequencer {
    /// The epoch the timestamps count from.
    pub closed spec fn shared_epoch(&self) -> Arc<Instant> {
        self.epoch
    }

    /// A sequencer whose epoch is now, its counter at 1. Nothing is stated of the result:
    /// its epoch is a reading of the clock, and an atomic counter has no view to state
    /// its value over.
    pub fn new() -> (s: Sequencer) {
        Sequencer::with_epoch(Arc::new(clock_now()))
    }

    /// A sequencer with the given shared epoch.
    pub fn with_epoch(epoch: Arc<Instant>) -> (s: Sequencer)
        ensures
            s.shared_epoch() == epoch,
    {
        Sequencer { next: AtomicU64::new(1), epoch }
    }

    /// The next sequence number and the current timestamp. The counter is shared by
    /// every thread that holds the sequencer, and the timestamp comes from the clock, so
    /// nothing is stated of either value.
    pub fn next(&self) -> (r: (u64, u64)) {
        let seq = self.next.fetch_add(1, Ordering::Relaxed);
        let ts = self.timestamp();
        (seq, ts)
    }

    /// Nanoseconds since the epoch, truncated to 64 bits. Nothing is stated of the value,
    /// which comes from the clock.
    fn timestamp(&self) -> u64 {
        let n = duration_nanos(&clock_elapsed(&self.epoch));
        n as u64
    }

    /// The sequence number the next call will hand out, as the counter reads now. Nothing
    /// is stated of the value: every thread that holds the sequencer moves the counter.
    pub fn current(&self) -> (r: u64) {
        self.next.load(Ordering::Relaxed)
    }
}

} // verus!
