//! Where events go: coalescing, write concurrency and retries, the same for
//! every kind of sink.
//!
//! The decisions are made here; the runtime around them receives envelopes,
//! performs writes and sleeps, and reports back what happened.

pub mod clickhouse;
pub mod coalescing;
pub mod kafka;

use crate::config::DeliverySettings;
use crate::metrics;
use crate::metrics::SinkMetrics;
use vstd::prelude::*;

verus! {

/// What a write actually did.
///
/// Returned rather than counted in place so sinks hold no metrics state and
/// stay testable on their own; [`finish_write`] folds the outcome into the
/// counters.
#[derive(Debug, Clone, Copy, PartialEq, Eq, Structural)]
pub struct WriteOutcome {
    pub written: u64,
    /// Rows the sink refused. These are acknowledged, not retried: the batch
    /// succeeded, and a malformed row would fail again on every replay.
    pub dropped: u64,
}

impl Default for WriteOutcome {
    fn default() -> (outcome: Self)
        ensures
            outcome == (WriteOutcome { written: 0, dropped: 0 }),
    {
        WriteOutcome { written: 0, dropped: 0 }
    }
}

impl WriteOutcome {
    pub fn written(written: u64) -> (outcome: Self)
        ensures
            outcome == (WriteOutcome { written, dropped: 0 }),
    {
        WriteOutcome { written, dropped: 0 }
    }
}

/// When a coalesced write is closed.
#[derive(Debug, Clone, Copy, PartialEq, Eq, Structural)]
pub struct BatchSettings {
    pub max_events: usize,
    pub max_bytes: usize,
    pub linger_ms: u64,
}

/// What to do after an attempt to write.
#[derive(Debug)]
pub enum Attempted<E> {
    /// The write succeeded.
    Done(WriteOutcome),
    /// Wait, then try once more.
    Retry { backoff_ms: u64 },
    /// The last attempt failed.
    GiveUp(E),
}

/// Twice the backoff, but no more than `max`.
pub open spec fn doubled(backoff_ms: u64, max: u64) -> u64 {
    if 2 * backoff_ms > max {
        max
    } else {
        (2 * backoff_ms) as u64
    }
}

/// Writes one coalesced group, retrying transient failures with exponential
/// backoff.
///
/// Exhausting the retries is deliberately fatal: the batch's offsets are never
/// committed, so terminating replays them on restart. Silently dropping the
/// batch is the one outcome that would break at-least-once.
#[derive(Debug)]
pub struct Retries {
    attempt: u32,
    backoff_ms: u64,
    max_attempts: u32,
    max_backoff_ms: u64,
}

/// What a [`Retries`] holds.
pub ghost struct RetriesView {
    /// The attempt under way, from 1.
    pub attempt: u32,
    /// How long to wait should it fail.
    pub backoff_ms: u64,
    pub max_attempts: u32,
    pub max_backoff_ms: u64,
}

impl RetriesView {
    /// The next attempt.
    pub open spec fn next(self) -> RetriesView {
        RetriesView {
            attempt: (self.attempt + 1) as u32,
            backoff_ms: doubled(self.backoff_ms, self.max_backoff_ms),
            ..self
        }
    }

    /// The attempt after `failures` failed ones; none once the last has failed.
    pub open spec fn after(self, failures: nat) -> Option<RetriesView>
        decreases failures,
    {
        if failures == 0 {
            Some(self)
        } else {
            match self.after((failures - 1) as nat) {
                Some(at) if at.attempt < at.max_attempts => Some(at.next()),
                _ => None,
            }
        }
    }
}

/// The first attempt under some settings.
pub open spec fn first_attempt(settings: DeliverySettings) -> RetriesView {
    RetriesView {
        attempt: 1,
        backoff_ms: settings.retry_initial_backoff_ms,
        max_attempts: settings.retry_max_attempts,
        max_backoff_ms: settings.retry_max_backoff_ms,
    }
}

impl View for Retries {
    type V = RetriesView;

    closed spec fn view(&self) -> RetriesView {
        RetriesView {
            attempt: self.attempt,
            backoff_ms: self.backoff_ms,
            max_attempts: self.max_attempts,
            max_backoff_ms: self.max_backoff_ms,
        }
    }
}

impl Retries {
    pub fn new(settings: &DeliverySettings) -> (retries: Self)
        requires
            settings.retry_max_attempts >= 1,
        ensures
            retries@ == first_attempt(*settings),
            retries@.attempt == 1,
            retries@.backoff_ms == settings.retry_initial_backoff_ms,
            retries@.max_attempts == settings.retry_max_attempts,
            retries@.max_backoff_ms == settings.retry_max_backoff_ms,
    {
        Retries {
            attempt: 1,
            backoff_ms: settings.retry_initial_backoff_ms,
            max_attempts: settings.retry_max_attempts,
            max_backoff_ms: settings.retry_max_backoff_ms,
        }
    }

    /// The attempt under way.
    pub fn attempt(&self) -> (attempt: u32)
        ensures
            attempt == self@.attempt,
    {
        self.attempt
    }

    /// Takes the result of an attempt. Every attempt that is retried is counted,
    /// and so is the final failure, once.
    pub fn on_attempt<E>(
        &mut self,
        result: Result<WriteOutcome, E>,
        counters: &mut SinkMetrics,
    ) -> (attempted: Attempted<E>)
        ensures
            match result {
                Ok(outcome) => {
                    &&& attempted == Attempted::<E>::Done(outcome)
                    &&& final(self)@ == old(self)@
                    &&& *final(counters) == *old(counters)
                },
                Err(error) => {
                    &&& *final(counters) == counters_after_failure(old(self)@, *old(counters))
                    &&& if old(self)@.attempt < old(self)@.max_attempts {
                        &&& attempted == Attempted::<E>::Retry {
                            backoff_ms: old(self)@.backoff_ms,
                        }
                        &&& final(self)@ == old(self)@.next()
                        &&& final(self)@.attempt == old(self)@.attempt + 1
                        &&& final(self)@.max_attempts == old(self)@.max_attempts
                        &&& final(self)@.max_backoff_ms == old(self)@.max_backoff_ms
                        &&& final(self)@.backoff_ms <= old(self)@.max_backoff_ms
                        &&& final(self)@.backoff_ms == old(self)@.max_backoff_ms
                            || final(self)@.backoff_ms == 2 * old(self)@.backoff_ms
                        &&& 2 * old(self)@.backoff_ms <= old(self)@.max_backoff_ms
                            ==> final(self)@.backoff_ms == 2 * old(self)@.backoff_ms
                        &&& final(counters).retries as int == (old(counters).retries + 1)
                            % 0x1_0000_0000_0000_0000
                        &&& *final(counters) == (SinkMetrics {
                            retries: final(counters).retries,
                            ..*old(counters)
                        })
                    } else {
                        &&& final(counters).write_errors as int == (old(counters).write_errors + 1)
                            % 0x1_0000_0000_0000_0000
                        &&& *final(counters) == (SinkMetrics {
                            write_errors: final(counters).write_errors,
                            ..*old(counters)
                        })
                        &&& attempted == Attempted::<E>::GiveUp(error)
                        &&& final(self)@ == old(self)@
                    }
                },
            },
    {
        proof {
            metrics::a_counter_wraps_around(counters.retries, 1);
            metrics::a_counter_wraps_around(counters.write_errors, 1);
        }
        match result {
            Ok(outcome) => Attempted::Done(outcome),
            Err(error) => if self.attempt < self.max_attempts {
                counters.retries = counters.retries.wrapping_add(1);
                let backoff_ms: u64 = self.backoff_ms;
                self.backoff_ms = if backoff_ms > self.max_backoff_ms / 2 {
                    self.max_backoff_ms
                } else {
                    backoff_ms * 2
                };
                self.attempt = self.attempt + 1;
                Attempted::Retry { backoff_ms }
            } else {
                counters.write_errors = counters.write_errors.wrapping_add(1);
                Attempted::GiveUp(error)
            },
        }
    }
}

/// A write is tried at most `retry_max_attempts` times: as long as fewer
/// attempts failed there is a next one, and the wait before it has doubled with
/// each failure, up to the maximal backoff.
pub proof fn retries_are_bounded_and_back_off(settings: DeliverySettings, failures: nat)
    requires
        settings.retry_max_attempts >= 1,
        settings.retry_initial_backoff_ms <= settings.retry_max_backoff_ms,
    ensures
        first_attempt(settings).after(failures) is Some <==> failures
            < settings.retry_max_attempts,
        first_attempt(settings).after(failures) matches Some(at) ==> {
            &&& at.attempt == failures + 1
            &&& at.max_attempts == settings.retry_max_attempts
            &&& at.max_backoff_ms == settings.retry_max_backoff_ms
            &&& at.backoff_ms == (if settings.retry_initial_backoff_ms
                * vstd::arithmetic::power2::pow2(failures) > settings.retry_max_backoff_ms {
                settings.retry_max_backoff_ms as int
            } else {
                settings.retry_initial_backoff_ms * vstd::arithmetic::power2::pow2(failures)
            })
        },
    decreases failures,
{
    let initial = settings.retry_initial_backoff_ms as int;
    if failures == 0 {
        vstd::arithmetic::power2::lemma2_to64();
        assert(initial * 1 == initial);
    } else {
        let before = (failures - 1) as nat;
        retries_are_bounded_and_back_off(settings, before);
        vstd::arithmetic::power2::lemma_pow2_unfold(failures);
        let p = vstd::arithmetic::power2::pow2(before) as int;
        assert(initial * (2 * p) == 2 * (initial * p)) by (nonlinear_arith);
    }
}

/// The counters after one more failed attempt.
pub open spec fn counters_after_failure(at: RetriesView, counters: SinkMetrics) -> SinkMetrics {
    if at.attempt < at.max_attempts {
        SinkMetrics { retries: metrics::counted(counters.retries, 1), ..counters }
    } else {
        SinkMetrics { write_errors: metrics::counted(counters.write_errors, 1), ..counters }
    }
}

/// The counters after `failures` failed attempts of one write.
pub open spec fn counters_after(
    settings: DeliverySettings,
    counters: SinkMetrics,
    failures: nat,
) -> SinkMetrics
    decreases failures,
{
    if failures == 0 {
        counters
    } else {
        let before = (failures - 1) as nat;
        match first_attempt(settings).after(before) {
            Some(at) => counters_after_failure(at, counters_after(settings, counters, before)),
            None => counters_after(settings, counters, before),
        }
    }
}

/// Every attempt that is retried is counted as a retry. The last failure is
/// counted as a write error, once and not once per attempt, and only when every
/// attempt has failed.
pub proof fn failures_are_counted_once(
    settings: DeliverySettings,
    counters: SinkMetrics,
    failures: nat,
)
    requires
        settings.retry_max_attempts >= 1,
        settings.retry_initial_backoff_ms <= settings.retry_max_backoff_ms,
        failures <= settings.retry_max_attempts,
    ensures
        counters_after(settings, counters, failures) == (if failures
            < settings.retry_max_attempts {
            SinkMetrics { retries: metrics::counted(counters.retries, failures as u64), ..counters }
        } else {
            SinkMetrics {
                retries: metrics::counted(
                    counters.retries,
                    (settings.retry_max_attempts - 1) as u64,
                ),
                write_errors: metrics::counted(counters.write_errors, 1),
                ..counters
            }
        }),
    decreases failures,
{
    if failures > 0 {
        failures_are_counted_once(settings, counters, (failures - 1) as nat);
        retries_are_bounded_and_back_off(settings, (failures - 1) as nat);
    }
}

/// The counters after a write has ended: what it wrote and dropped is counted,
/// and the write itself; a failed write adds to none of these.
pub open spec fn counters_after_write<E>(
    result: Result<WriteOutcome, E>,
    counters: SinkMetrics,
) -> SinkMetrics {
    match result {
        Ok(outcome) => SinkMetrics {
            events_out: metrics::counted(counters.events_out, outcome.written),
            events_dropped: metrics::counted(counters.events_dropped, outcome.dropped),
            batches_written: metrics::counted(counters.batches_written, 1),
            ..counters
        },
        Err(_) => counters,
    }
}

/// Folds a finished write into the counters. The first answer says whether the
/// envelopes are acknowledged as delivered.
pub fn finish_write<E>(result: Result<WriteOutcome, E>, counters: &mut SinkMetrics) -> (finished: (
    bool,
    Result<(), E>,
))
    ensures
        finished.0 == result is Ok,
        match result {
            Ok(_) => finished.1 is Ok,
            Err(error) => finished.1 == Err::<(), E>(error),
        },
        *final(counters) == counters_after_write(result, *old(counters)),
        match result {
            Ok(outcome) => {
                &&& final(counters).events_out as int == (old(counters).events_out
                    + outcome.written) % 0x1_0000_0000_0000_0000
                &&& final(counters).events_dropped as int == (old(counters).events_dropped
                    + outcome.dropped) % 0x1_0000_0000_0000_0000
                &&& final(counters).batches_written as int == (old(counters).batches_written + 1)
                    % 0x1_0000_0000_0000_0000
                &&& final(counters).write_errors == old(counters).write_errors
                &&& final(counters).retries == old(counters).retries
                &&& final(counters).queue_depth == old(counters).queue_depth
            },
            Err(_) => *final(counters) == *old(counters),
        },
{
    proof {
        if let Ok(outcome) = result {
            metrics::a_counter_wraps_around(counters.events_out, outcome.written);
            metrics::a_counter_wraps_around(counters.events_dropped, outcome.dropped);
            metrics::a_counter_wraps_around(counters.batches_written, 1);
        }
    }
    match result {
        Ok(outcome) => {
            counters.events_out = counters.events_out.wrapping_add(outcome.written);
            counters.events_dropped = counters.events_dropped.wrapping_add(outcome.dropped);
            counters.batches_written = counters.batches_written.wrapping_add(1);
            (true, Ok(()))
        },
        Err(error) => (false, Err(error)),
    }
}

/// The wait doubles with a failure, and ends at the limit.
pub proof fn a_wait_doubles_up_to_the_limit(backoff_ms: u64, max: u64)
    ensures
        2 * backoff_ms <= max ==> doubled(backoff_ms, max) == 2 * backoff_ms,
        2 * backoff_ms > max ==> doubled(backoff_ms, max) == max,
{
}

/// A write that succeeded counts what it wrote and dropped, and itself; one that
/// failed counts nothing.
pub proof fn a_write_is_counted_once<E>(outcome: WriteOutcome, error: E, counters: SinkMetrics)
    ensures
        ({
            let after = counters_after_write(Ok::<WriteOutcome, E>(outcome), counters);
            &&& after.events_out as int == (counters.events_out + outcome.written)
                % 0x1_0000_0000_0000_0000
            &&& after.events_dropped as int == (counters.events_dropped + outcome.dropped)
                % 0x1_0000_0000_0000_0000
            &&& after.batches_written as int == (counters.batches_written + 1)
                % 0x1_0000_0000_0000_0000
            &&& after == SinkMetrics {
                events_out: after.events_out,
                events_dropped: after.events_dropped,
                batches_written: after.batches_written,
                ..counters
            }
        }),
        counters_after_write(Err::<WriteOutcome, E>(error), counters) == counters,
{
    metrics::a_counter_wraps_around(counters.events_out, outcome.written);
    metrics::a_counter_wraps_around(counters.events_dropped, outcome.dropped);
    metrics::a_counter_wraps_around(counters.batches_written, 1);
}

} // verus!
