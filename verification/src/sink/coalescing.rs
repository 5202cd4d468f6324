//! The event loop of a sink: envelopes are coalesced into writes, a bounded
//! number of writes is in flight, and each envelope is acknowledged by its write.

use crate::event;
use crate::event::EventBatch;
use crate::groups;
use crate::metrics::SinkMetrics;
use crate::sink;
use crate::sink::{finish_write, BatchSettings, WriteOutcome};
use std::sync::Arc;
use vstd::prelude::*;

verus! {

/// What a sink is doing.
#[derive(Debug, Clone, Copy, PartialEq, Eq, Structural)]
pub enum SinkPhase {
    /// Waiting for work.
    Accepting,
    /// Collecting envelopes for one write.
    Coalescing,
    /// The write is collected and waits for a free slot.
    Collected,
    /// No more work is taken; the writes in flight finish.
    Draining,
    /// A write failed, which ends the sink.
    Stopped,
}

/// One write to be made.
#[derive(Debug)]
pub struct WriteJob {
    /// By which the end of the write is reported.
    pub number: u64,
    pub batches: Vec<Arc<EventBatch>>,
}

/// What the end of a write leads to.
#[derive(Debug)]
pub struct WriteEnded<T, E> {
    /// The envelopes that the write answers for.
    pub envelopes: Vec<T>,
    /// Whether they are delivered; otherwise they have failed.
    pub delivered: bool,
    /// The error that the sink ends with.
    pub fatal: Option<E>,
}

/// A write that has not ended, with the envelopes that wait for it.
struct PendingWrite<T> {
    number: u64,
    envelopes: Vec<T>,
}

/// Everything that happened to a sink so far.
pub ghost struct SinkHistory<T> {
    /// The envelopes taken from the queue, in order.
    pub accepted: Seq<T>,
    /// The batches that they carried.
    pub carried: Seq<Arc<EventBatch>>,
    /// The answers given to each envelope.
    pub answers: Seq<Seq<bool>>,
    /// The envelopes of each write dispatched, in order.
    pub dispatched: Seq<Seq<T>>,
    /// The batches handed to each write.
    pub written: Seq<Seq<Arc<EventBatch>>>,
    /// The writes that have ended, and whether they succeeded.
    pub results: Map<u64, bool>,
}

impl<T> SinkHistory<T> {
    /// The answers that the `i`-th envelope of write `k` was given.
    pub open spec fn answers_to(self, k: int, i: int) -> Seq<bool> {
        self.answers[groups::place(self.dispatched, k, i)]
    }

    /// The answers that the envelopes of write `k` are owed: the result of the
    /// write, once it has ended.
    pub open spec fn owed_by(self, k: u64) -> Seq<bool> {
        if self.results.contains_key(k) {
            seq![self.results[k]]
        } else {
            Seq::empty()
        }
    }

    /// The `p`-th envelope taken is the `i`-th one of write `k`.
    pub open spec fn writes(self, k: u64, i: int, p: int) -> bool {
        &&& k < self.dispatched.len()
        &&& 0 <= i < self.dispatched[k as int].len()
        &&& groups::place(self.dispatched, k as int, i) == p
    }

    /// Write `k` has ended, and it succeeded.
    pub open spec fn succeeded(self, k: u64) -> bool {
        self.results.contains_key(k) && self.results[k]
    }

    /// The answers once those without one are given up as failed.
    pub open spec fn settled(self) -> Seq<Seq<bool>> {
        self.answers.map_values(
            |given: Seq<bool>|
                if given.len() == 0 {
                    seq![false]
                } else {
                    given
                },
        )
    }
}

/// What a [`SinkLoop`] holds.
pub ghost struct SinkView<T, E> {
    pub max_events: usize,
    pub max_bytes: usize,
    pub max_writes: usize,
    pub phase: SinkPhase,
    pub envelopes: Seq<T>,
    pub batches: Seq<Arc<EventBatch>>,
    /// The writes in flight, oldest first.
    pub in_flight: Seq<u64>,
    /// The number of the next write.
    pub sequence: u64,
    pub first_error: Option<E>,
    pub history: SinkHistory<T>,
}

/// The number of events in some batches.
pub open spec fn event_count(batches: Seq<Arc<EventBatch>>) -> nat
    decreases batches.len(),
{
    if batches.len() == 0 {
        0
    } else {
        event_count(batches.drop_last()) + (*batches.last())@.len()
    }
}

/// The footprint of some batches.
pub open spec fn byte_count(batches: Seq<Arc<EventBatch>>) -> nat
    decreases batches.len(),
{
    if batches.len() == 0 {
        0
    } else {
        byte_count(batches.drop_last()) + event::total_size((*batches.last())@)
    }
}

/// The envelopes that have no answer, in order.
pub open spec fn unanswered<T>(envelopes: Seq<T>, answers: Seq<Seq<bool>>) -> Seq<T>
    decreases envelopes.len(),
{
    if envelopes.len() == 0 {
        Seq::empty()
    } else {
        let before = unanswered(envelopes.drop_last(), answers.drop_last());
        if answers.last().len() == 0 {
            before.push(envelopes.last())
        } else {
            before
        }
    }
}

impl<T, E> SinkView<T, E> {
    /// Some batches have not reached a limit yet.
    pub open spec fn below_limits(self, batches: Seq<Arc<EventBatch>>) -> bool {
        event_count(batches) < self.max_events && byte_count(batches) < self.max_bytes
    }

    /// A group takes in batches only as long as it is below the limits: without
    /// its last batch it still was.
    pub open spec fn closes_at_the_limit(self, batches: Seq<Arc<EventBatch>>) -> bool {
        batches.len() > 1 ==> self.below_limits(batches.drop_last())
    }

    /// A write has failed.
    pub open spec fn has_failed(self) -> bool {
        exists|k: u64| #[trigger]
            self.history.results.contains_key(k) && !self.history.results[k]
    }

    /// Every envelope and its batch is in one write, or is being collected for
    /// the next one.
    pub open spec fn accounts_for_every_envelope(self) -> bool {
        &&& self.history.accepted == groups::concat(self.history.dispatched) + self.envelopes
        &&& self.history.carried == groups::concat(self.history.written) + self.batches
        &&& self.envelopes.len() == self.batches.len()
        &&& self.history.dispatched.len() == self.sequence
        &&& self.history.written.len() == self.sequence
        &&& forall|k: int|
            #![trigger self.history.dispatched[k]]
            #![trigger self.history.written[k]]
            0 <= k < self.sequence ==> {
                &&& self.history.dispatched[k].len() == self.history.written[k].len()
                &&& self.history.written[k].len() > 0
                &&& self.closes_at_the_limit(self.history.written[k])
            }
        &&& self.closes_at_the_limit(self.batches)
    }

    /// Every write is in flight or has ended.
    pub open spec fn accounts_for_every_write(self) -> bool {
        &&& self.in_flight.len() <= self.max_writes
        &&& self.in_flight.len() == self.max_writes ==> self.in_flight.last() == self.sequence - 1
        &&& forall|i: int, j: int|
            0 <= i < j < self.in_flight.len() ==> self.in_flight[i] < self.in_flight[j]
        &&& forall|i: int|
            0 <= i < self.in_flight.len() ==> #[trigger] self.in_flight[i] < self.sequence
        &&& forall|k: u64| #[trigger]
            self.history.results.contains_key(k) <==> k < self.sequence
                && !self.in_flight.contains(k)
    }

    /// Every envelope was answered by the write it is in, and by nothing else.
    pub open spec fn accounts_for_every_answer(self) -> bool {
        &&& self.history.answers.len() == self.history.accepted.len()
        &&& forall|k: int, i: int|
            0 <= k < self.sequence && 0 <= i < self.history.dispatched[k].len()
                ==> #[trigger] self.history.answers_to(k, i) == self.history.owed_by(k as u64)
        &&& forall|p: int|
            groups::concat(self.history.dispatched).len() <= p < self.history.answers.len()
                ==> #[trigger] self.history.answers[p] == Seq::<bool>::empty()
    }

    /// Holds from the start and after every step.
    pub open spec fn consistent(self) -> bool {
        &&& self.max_writes > 0
        &&& self.accounts_for_every_envelope()
        &&& self.accounts_for_every_write()
        &&& self.accounts_for_every_answer()
        &&& match self.phase {
            SinkPhase::Accepting => self.envelopes.len() == 0 && !self.has_failed(),
            SinkPhase::Coalescing => self.envelopes.len() > 0 && self.below_limits(self.batches)
                && !self.has_failed(),
            SinkPhase::Collected => self.envelopes.len() > 0 && !self.has_failed(),
            SinkPhase::Draining => self.envelopes.len() == 0,
            SinkPhase::Stopped => self.has_failed(),
        }
        &&& self.phase != SinkPhase::Stopped ==> (self.has_failed() <==> self.first_error is Some)
    }

    /// A shutdown was requested.
    pub open spec fn shut_down(self) -> SinkView<T, E> {
        SinkView { phase: SinkPhase::Draining, ..self }
    }

    /// No more envelopes will come.
    pub open spec fn closed_off(self) -> SinkView<T, E> {
        SinkView {
            phase: if self.envelopes.len() == 0 {
                SinkPhase::Draining
            } else {
                SinkPhase::Collected
            },
            ..self
        }
    }

    /// The write being collected has lingered long enough.
    pub open spec fn lingered(self) -> SinkView<T, E> {
        SinkView { phase: SinkPhase::Collected, ..self }
    }

    /// What is collected can be written now.
    pub open spec fn can_dispatch(self) -> bool {
        self.phase == SinkPhase::Collected && self.in_flight.len() < self.max_writes
    }

    /// The sink has drained.
    pub open spec fn finished(self) -> bool {
        self.phase == SinkPhase::Draining && self.in_flight.len() == 0
    }

    /// One more envelope is collected.
    pub open spec fn with_envelope(self, batch: Arc<EventBatch>, envelope: T) -> SinkView<T, E> {
        SinkView {
            envelopes: self.envelopes.push(envelope),
            batches: self.batches.push(batch),
            phase: if self.below_limits(self.batches.push(batch)) {
                SinkPhase::Coalescing
            } else {
                SinkPhase::Collected
            },
            history: SinkHistory {
                accepted: self.history.accepted.push(envelope),
                carried: self.history.carried.push(batch),
                answers: self.history.answers.push(Seq::empty()),
                ..self.history
            },
            ..self
        }
    }

    /// What is collected is being written.
    pub open spec fn dispatched(self) -> SinkView<T, E> {
        SinkView {
            phase: SinkPhase::Accepting,
            envelopes: Seq::empty(),
            batches: Seq::empty(),
            in_flight: self.in_flight.push(self.sequence),
            sequence: (self.sequence + 1) as u64,
            history: SinkHistory {
                dispatched: self.history.dispatched.push(self.envelopes),
                written: self.history.written.push(self.batches),
                ..self.history
            },
            ..self
        }
    }

    /// Write `k` has ended, with `error` if it failed, and its envelopes are
    /// answered. While draining, the first error is kept; otherwise it ends the
    /// sink.
    pub open spec fn write_ended(self, k: u64, error: Option<E>) -> SinkView<T, E> {
        let first = groups::place(self.history.dispatched, k as int, 0);
        let end = first + self.history.dispatched[k as int].len();
        SinkView {
            phase: if error is Some && self.phase != SinkPhase::Draining {
                SinkPhase::Stopped
            } else {
                self.phase
            },
            in_flight: self.in_flight.remove(self.in_flight.index_of(k)),
            first_error: if self.phase == SinkPhase::Draining && self.first_error is None {
                error
            } else {
                self.first_error
            },
            history: SinkHistory {
                answers: Seq::new(
                    self.history.answers.len(),
                    |p: int|
                        if first <= p < end {
                            self.history.answers[p].push(error is None)
                        } else {
                            self.history.answers[p]
                        },
                ),
                results: self.history.results.insert(k, error is None),
                ..self.history
            },
            ..self
        }
    }
}

/// A step keeps the accounts: an envelope is taken.
pub proof fn taking_keeps_the_accounts<T, E>(
    v: SinkView<T, E>,
    batch: Arc<EventBatch>,
    envelope: T,
)
    requires
        v.consistent(),
        v.phase == SinkPhase::Accepting || v.phase == SinkPhase::Coalescing,
    ensures
        v.with_envelope(batch, envelope).consistent(),
{
    let next = v.with_envelope(batch, envelope);
    assert(next.history.accepted =~= groups::concat(next.history.dispatched) + next.envelopes);
    assert(next.history.carried =~= groups::concat(next.history.written) + next.batches);
    assert(next.batches.drop_last() =~= v.batches);
    assert(next.has_failed() == v.has_failed());
    assert forall|k: int, i: int|
        0 <= k < next.sequence && 0 <= i < next.history.dispatched[k].len() implies
        #[trigger] next.history.answers_to(k, i) == next.history.owed_by(k as u64) by {
        groups::lemma_place(v.history.dispatched, k, i);
        assert(v.history.answers_to(k, i) == v.history.owed_by(k as u64));
    }
}

/// A step keeps the accounts: what is collected is dispatched.
pub proof fn dispatching_keeps_the_accounts<T, E>(v: SinkView<T, E>)
    requires
        v.consistent(),
        v.phase == SinkPhase::Collected,
        v.in_flight.len() < v.max_writes,
        v.sequence < u64::MAX,
    ensures
        v.dispatched().consistent(),
{
    let next = v.dispatched();
    let before = v.history.dispatched;
    let after = next.history.dispatched;
    assert(after.drop_last() =~= before);
    assert(next.history.written.drop_last() =~= v.history.written);
    assert(next.history.accepted =~= groups::concat(after) + next.envelopes);
    assert(next.history.carried =~= groups::concat(next.history.written) + next.batches);
    assert(next.has_failed() == v.has_failed());
    assert forall|k: u64| #[trigger] next.history.results.contains_key(k) <==> k < next.sequence
        && !next.in_flight.contains(k) by {
        if v.in_flight.contains(k) {
            let i = choose|i: int| 0 <= i < v.in_flight.len() && v.in_flight[i] == k;
            assert(next.in_flight[i] == k);
        }
        assert(next.in_flight[v.in_flight.len() as int] == v.sequence);
        if next.in_flight.contains(k) {
            let i = choose|i: int| 0 <= i < next.in_flight.len() && next.in_flight[i] == k;
            if i < v.in_flight.len() {
                assert(v.in_flight[i] == k);
            }
        }
    }
    assert forall|k: int, i: int|
        0 <= k < next.sequence && 0 <= i < next.history.dispatched[k].len() implies
        #[trigger] next.history.answers_to(k, i) == next.history.owed_by(k as u64) by {
        assert(after.take(k) =~= before.take(k));
        if k < v.sequence {
            assert(v.history.answers_to(k, i) == v.history.owed_by(k as u64));
        } else {
            assert(before.take(k) =~= before);
        }
    }
}

/// A step keeps the accounts: a write has ended.
pub proof fn ending_keeps_the_accounts<T, E>(v: SinkView<T, E>, k: u64, error: Option<E>)
    requires
        v.consistent(),
        v.in_flight.contains(k),
    ensures
        v.write_ended(k, error).consistent(),
{
    let next = v.write_ended(k, error);
    let groups = v.history.dispatched;
    let at = v.in_flight.index_of(k);
    assert(v.in_flight[at] == k);
    assert forall|other: u64| next.in_flight.contains(other) <==> v.in_flight.contains(other)
        && other != k by {
        if v.in_flight.contains(other) && other != k {
            let i = v.in_flight.index_of(other);
            assert(v.in_flight[i] == other);
            assert(next.in_flight[if i < at { i } else { i - 1 }] == other);
        }
        if next.in_flight.contains(other) {
            let i = choose|i: int| 0 <= i < next.in_flight.len() && next.in_flight[i] == other;
            assert(v.in_flight[if i < at { i } else { i + 1 }] == other);
        }
    }
    assert(!v.history.results.contains_key(k));
    if error is Some {
        assert(next.history.results.contains_key(k) && !next.history.results[k]);
    } else {
        assert forall|other: u64| #[trigger] next.history.results.contains_key(other) && other != k
            implies v.history.results.contains_key(other) by {}
        if v.has_failed() {
            let other = choose|other: u64| #[trigger]
                v.history.results.contains_key(other) && !v.history.results[other];
            assert(next.history.results.contains_key(other) && !next.history.results[other]);
        }
    }
    if v.has_failed() {
        let other = choose|other: u64| #[trigger]
            v.history.results.contains_key(other) && !v.history.results[other];
        assert(next.history.results.contains_key(other) && !next.history.results[other]);
    }
    assert forall|n: int, i: int|
        0 <= n < next.sequence && 0 <= i < next.history.dispatched[n].len() implies
        #[trigger] next.history.answers_to(n, i) == next.history.owed_by(n as u64) by {
        assert(v.history.answers_to(n, i) == v.history.owed_by(n as u64));
        groups::lemma_place(groups, n, i);
        if n < k {
            groups::lemma_concat_prefix(groups, n + 1, k as int);
        } else if n > k {
            groups::lemma_concat_prefix(groups, k as int + 1, n);
            assert(groups.take(k as int + 1).drop_last() =~= groups.take(k as int));
        } else {
            assert(Seq::<bool>::empty().push(error is None) =~= seq![error is None]);
        }
    }
    assert forall|p: int|
        groups::concat(next.history.dispatched).len() <= p < next.history.answers.len() implies
        #[trigger] next.history.answers[p] == Seq::<bool>::empty() by {
        groups::lemma_concat_prefix(groups, k as int + 1, groups.len() as int);
        assert(groups.take(k as int + 1).drop_last() =~= groups.take(k as int));
        assert(groups.take(groups.len() as int) =~= groups);
        assert(v.history.answers[p] == Seq::<bool>::empty());
    }
}

/// Every envelope taken is written once, in the order in which it was taken, and
/// so is the batch it carries: the writes dispatched, followed by what is being
/// collected, are what was taken.
pub proof fn every_envelope_is_written_once_in_order<T, E>(v: SinkView<T, E>)
    requires
        v.consistent(),
    ensures
        groups::concat(v.history.dispatched) + v.envelopes == v.history.accepted,
        groups::concat(v.history.written) + v.batches == v.history.carried,
        v.history.accepted.len() == v.history.carried.len(),
{
    groups::lemma_same_places(v.history.dispatched, v.history.written);
}

/// A write takes in batches until a limit is reached: there is at least one, and
/// without the last one both limits were still ahead.
pub proof fn writes_close_at_the_limit<T, E>(v: SinkView<T, E>, k: u64)
    requires
        v.consistent(),
        k < v.sequence,
    ensures
        v.history.written[k as int].len() > 0,
        v.history.written[k as int].len() > 1 ==> {
            let others = v.history.written[k as int].drop_last();
            event_count(others) < v.max_events && byte_count(others) < v.max_bytes
        },
{
}

/// No more writes are in flight than the settings allow, and every write that
/// was dispatched has ended or is one of those.
pub proof fn writes_are_bounded<T, E>(v: SinkView<T, E>, k: u64)
    requires
        v.consistent(),
        k < v.sequence,
    ensures
        v.in_flight.len() <= v.max_writes,
        v.history.results.contains_key(k) <==> !v.in_flight.contains(k),
{
}

/// With a single slot the writes are made one after the other, in the order of
/// the envelopes: only the newest may still be under way.
pub proof fn a_single_slot_keeps_the_order<T, E>(v: SinkView<T, E>, k: u64)
    requires
        v.consistent(),
        v.max_writes == 1,
        k + 1 < v.sequence,
    ensures
        v.history.results.contains_key(k),
{
    if v.in_flight.contains(k) {
        let i = v.in_flight.index_of(k);
        assert(v.in_flight[i] == k);
    }
}

/// An envelope is acknowledged by its write, exactly once and not before the
/// write has ended: as delivered if the write succeeded, as failed otherwise. One
/// that is still being collected has no answer.
pub proof fn every_envelope_is_answered_once_by_its_write<T, E>(v: SinkView<T, E>, p: int)
    requires
        v.consistent(),
        0 <= p < v.history.accepted.len(),
    ensures
        v.history.answers[p].len() <= 1,
        p < groups::concat(v.history.dispatched).len() ==> exists|k: u64, i: int|
            #![trigger v.history.writes(k, i, p)]
            v.history.writes(k, i, p) && {
                &&& v.history.accepted[p] == v.history.dispatched[k as int][i]
                &&& v.history.carried[p] == v.history.written[k as int][i]
                &&& v.history.answers[p] == (if v.history.results.contains_key(k) {
                    seq![v.history.results[k]]
                } else {
                    Seq::empty()
                })
            },
        p >= groups::concat(v.history.dispatched).len() ==> v.history.answers[p].len() == 0,
{
    let groups = v.history.dispatched;
    if p < groups::concat(groups).len() {
        let (n, i) = groups::lemma_place_of(groups, p);
        let k = n as u64;
        groups::lemma_place(groups, n, i);
        assert(v.history.answers_to(n, i) == v.history.owed_by(k));
        let written = v.history.written;
        assert(written[n].len() == groups[n].len());
        groups::lemma_place(written, n, i);
        groups::lemma_same_places(groups.take(n), written.take(n));
        assert(v.history.writes(k, i, p));
    }
}

/// However a sink ends, every envelope it took has exactly one answer in the end:
/// it counts as delivered if the write it was in succeeded, and as failed if that
/// write failed, never ended or was never made.
pub proof fn every_envelope_has_one_answer_in_the_end<T, E>(v: SinkView<T, E>, p: int)
    requires
        v.consistent(),
        0 <= p < v.history.accepted.len(),
    ensures
        v.history.settled()[p].len() == 1,
        v.history.settled()[p][0] <==> exists|k: u64, i: int| #[trigger]
            v.history.writes(k, i, p) && v.history.succeeded(k),
{
    every_envelope_is_answered_once_by_its_write(v, p);
    let groups = v.history.dispatched;
    if p < groups::concat(groups).len() {
        let (n, i) = groups::lemma_place_of(groups, p);
        let k = n as u64;
        assert(v.history.answers_to(n, i) == v.history.owed_by(k));
        assert(v.history.writes(k, i, p));
    }
    if exists|k: u64, i: int| #[trigger] v.history.writes(k, i, p) && v.history.succeeded(k) {
        let (k, i) = choose|k: u64, i: int| #[trigger]
            v.history.writes(k, i, p) && v.history.succeeded(k);
        assert(v.history.answers_to(k as int, i) == v.history.owed_by(k));
    }
}

/// An answer is final: the end of a write answers envelopes that had no answer,
/// and leaves the others alone.
pub proof fn an_answer_is_final<T, E>(v: SinkView<T, E>, k: u64, error: Option<E>, p: int)
    requires
        v.consistent(),
        v.in_flight.contains(k),
        0 <= p < v.history.accepted.len(),
        v.history.answers[p].len() > 0,
    ensures
        v.write_ended(k, error).history.answers[p] == v.history.answers[p],
{
    let groups = v.history.dispatched;
    let at = v.in_flight.index_of(k);
    assert(v.in_flight[at] == k);
    let first = groups::place(groups, k as int, 0);
    if first <= p < first + groups[k as int].len() {
        let i = p - first;
        assert(v.history.answers_to(k as int, i) == v.history.owed_by(k));
    }
}

/// A sink that has drained has written everything it took, and every envelope
/// has its answer. It ends well only if no write failed, and then every envelope
/// was delivered.
pub proof fn a_clean_end_means_everything_was_delivered<T, E>(v: SinkView<T, E>)
    requires
        v.consistent(),
        v.phase == SinkPhase::Draining,
        v.in_flight.len() == 0,
    ensures
        v.history.accepted == groups::concat(v.history.dispatched),
        v.history.carried == groups::concat(v.history.written),
        forall|p: int|
            0 <= p < v.history.accepted.len() ==> (#[trigger] v.history.answers[p]).len() == 1,
        v.first_error is None ==> forall|p: int|
            0 <= p < v.history.accepted.len() ==> #[trigger] v.history.answers[p] == seq![true],
        v.first_error is Some <==> v.has_failed(),
{
    assert(groups::concat(v.history.dispatched) + v.envelopes =~= groups::concat(v.history.dispatched));
    assert(groups::concat(v.history.written) + v.batches =~= groups::concat(v.history.written));
    assert forall|p: int| 0 <= p < v.history.accepted.len() implies (
    #[trigger] v.history.answers[p]).len() == 1 && (v.first_error is None ==> v.history.answers[p]
        == seq![true]) by {
        let (n, i) = groups::lemma_place_of(v.history.dispatched, p);
        assert(v.history.answers_to(n, i) == v.history.owed_by(n as u64));
        assert(!v.in_flight.contains(n as u64));
        assert(v.history.results.contains_key(n as u64));
    }
}

proof fn lemma_unanswered_concat<T>(
    left: Seq<T>,
    right: Seq<T>,
    left_answers: Seq<Seq<bool>>,
    right_answers: Seq<Seq<bool>>,
)
    requires
        left.len() == left_answers.len(),
        right.len() == right_answers.len(),
    ensures
        unanswered(left + right, left_answers + right_answers) == unanswered(left, left_answers)
            + unanswered(right, right_answers),
    decreases right.len(),
{
    if right.len() == 0 {
        assert(left + right =~= left);
        assert(left_answers + right_answers =~= left_answers);
        assert(unanswered(left, left_answers) + unanswered(right, right_answers) =~= unanswered(
            left,
            left_answers,
        ));
    } else {
        assert((left + right).drop_last() =~= left + right.drop_last());
        assert((left_answers + right_answers).drop_last() =~= left_answers
            + right_answers.drop_last());
        lemma_unanswered_concat(
            left,
            right.drop_last(),
            left_answers,
            right_answers.drop_last(),
        );
        assert(unanswered(left + right, left_answers + right_answers) =~= unanswered(
            left,
            left_answers,
        ) + unanswered(right, right_answers));
    }
}

proof fn lemma_unanswered_uniform<T>(envelopes: Seq<T>, answers: Seq<Seq<bool>>, none: bool)
    requires
        envelopes.len() == answers.len(),
        forall|i: int| 0 <= i < answers.len() ==> ((#[trigger] answers[i]).len() == 0) == none,
    ensures
        unanswered(envelopes, answers) == (if none {
            envelopes
        } else {
            Seq::empty()
        }),
    decreases envelopes.len(),
{
    if envelopes.len() > 0 {
        assert(answers[answers.len() - 1].len() == 0 <==> none);
        assert forall|i: int| 0 <= i < answers.drop_last().len() implies ((
        #[trigger] answers.drop_last()[i]).len() == 0) == none by {
            assert((answers[i].len() == 0) == none);
        }
        lemma_unanswered_uniform(envelopes.drop_last(), answers.drop_last(), none);
        assert(envelopes.drop_last().push(envelopes.last()) =~= envelopes);
    } else {
        assert(envelopes =~= Seq::<T>::empty());
    }
}

/// The envelopes of those of the first `count` writes that have not ended.
spec fn waiting<T>(writes: Seq<Seq<T>>, results: Map<u64, bool>, count: int) -> Seq<T>
    decreases count,
{
    if count <= 0 {
        Seq::empty()
    } else {
        waiting(writes, results, count - 1) + if results.contains_key((count - 1) as u64) {
            Seq::empty()
        } else {
            writes[count - 1]
        }
    }
}

proof fn lemma_waiting_skips<T>(
    writes: Seq<Seq<T>>,
    results: Map<u64, bool>,
    from: int,
    to: int,
)
    requires
        0 <= from <= to <= u64::MAX,
        forall|k: u64| from <= k < to ==> #[trigger] results.contains_key(k),
    ensures
        waiting(writes, results, from) == waiting(writes, results, to),
    decreases to - from,
{
    if from < to {
        lemma_waiting_skips(writes, results, from, to - 1);
        assert(results.contains_key((to - 1) as u64));
        assert(waiting(writes, results, to) =~= waiting(writes, results, to - 1));
    }
}

proof fn lemma_waiting_is_unanswered<T, E>(v: SinkView<T, E>, count: int)
    requires
        v.consistent(),
        0 <= count <= v.sequence,
    ensures
        ({
            let end = groups::concat(v.history.dispatched.take(count)).len() as int;
            &&& end <= v.history.accepted.len()
            &&& unanswered(v.history.accepted.take(end), v.history.answers.take(end)) == waiting(
                v.history.dispatched,
                v.history.results,
                count,
            )
        }),
    decreases count,
{
    let groups = v.history.dispatched;
    let accepted = v.history.accepted;
    let answers = v.history.answers;
    let end = groups::concat(groups.take(count)).len() as int;
    groups::lemma_concat_prefix(groups, count, groups.len() as int);
    assert(groups.take(groups.len() as int) =~= groups);
    if count > 0 {
        let n = count - 1;
        lemma_waiting_is_unanswered(v, n);
        assert(groups.take(count).drop_last() =~= groups.take(n));
        let start = groups::concat(groups.take(n)).len() as int;
        let own = answers.subrange(start, end);
        assert(accepted.take(end) =~= accepted.take(start) + accepted.subrange(start, end));
        assert(answers.take(end) =~= answers.take(start) + own);
        assert(accepted.subrange(start, end) =~= groups[n]) by {
            assert forall|i: int| 0 <= i < groups[n].len() implies accepted[start + i]
                == groups[n][i] by {
                groups::lemma_place(groups, n, i);
            }
        }
        let none = !v.history.results.contains_key(n as u64);
        assert forall|i: int| 0 <= i < own.len() implies ((#[trigger] own[i]).len() == 0) == none
            by {
            assert(v.history.answers_to(n, i) == v.history.owed_by(n as u64));
        }
        lemma_unanswered_concat(
            accepted.take(start),
            groups[n],
            answers.take(start),
            own,
        );
        lemma_unanswered_uniform(groups[n], own, none);
    }
}

/// The envelopes without an answer are those of the writes in flight, and those
/// being collected.
proof fn lemma_unanswered<T, E>(v: SinkView<T, E>)
    requires
        v.consistent(),
    ensures
        unanswered(v.history.accepted, v.history.answers) == waiting(
            v.history.dispatched,
            v.history.results,
            v.sequence as int,
        ) + v.envelopes,
{
    let groups = v.history.dispatched;
    let end = groups::concat(groups).len() as int;
    let own = v.history.answers.skip(end);
    lemma_waiting_is_unanswered(v, v.sequence as int);
    assert(groups.take(groups.len() as int) =~= groups);
    assert(v.history.accepted =~= v.history.accepted.take(end) + v.envelopes);
    assert(v.history.answers =~= v.history.answers.take(end) + own);
    lemma_unanswered_concat(
        v.history.accepted.take(end),
        v.envelopes,
        v.history.answers.take(end),
        own,
    );
    assert forall|i: int| 0 <= i < own.len() implies ((#[trigger] own[i]).len() == 0) == true by {
        assert(v.history.answers[end + i] == Seq::<bool>::empty());
    }
    lemma_unanswered_uniform(v.envelopes, own, true);
}

/// Between two writes in flight, all others have ended.
proof fn lemma_first_waiting<T, E>(v: SinkView<T, E>, n: int, to: int)
    requires
        v.consistent(),
        0 <= n <= v.in_flight.len(),
        to == (if n < v.in_flight.len() {
            v.in_flight[n] as int
        } else {
            v.sequence as int
        }),
    ensures
        ({
            let from = if n == 0 {
                0
            } else {
                v.in_flight[n - 1] + 1
            };
            &&& 0 <= from <= to <= v.sequence
            &&& forall|k: u64| from <= k < to ==> #[trigger] v.history.results.contains_key(k)
        }),
{
    let from = if n == 0 {
        0
    } else {
        v.in_flight[n - 1] + 1
    };
    assert forall|k: u64| from <= k < to implies #[trigger] v.history.results.contains_key(k) by {
        if v.in_flight.contains(k) {
            let i = v.in_flight.index_of(k);
            assert(v.in_flight[i] == k);
            if i >= n {
                assert(v.in_flight[n] <= v.in_flight[i]);
            }
        }
    }
}

/// No write has ended.
pub open spec fn no_results() -> Map<u64, bool> {
    Map::empty()
}

/// The state of a running sink; `T` is what an envelope is to the runtime, `E`
/// what a write fails with.
pub struct SinkLoop<T, E> {
    max_events: usize,
    max_bytes: usize,
    max_writes: usize,
    phase: SinkPhase,
    envelopes: Vec<T>,
    batches: Vec<Arc<EventBatch>>,
    events: usize,
    bytes: usize,
    in_flight: Vec<PendingWrite<T>>,
    sequence: u64,
    first_error: Option<E>,
    history: Ghost<SinkHistory<T>>,
}

/// The numbers of some writes.
spec fn numbers<T>(writes: Seq<PendingWrite<T>>) -> Seq<u64> {
    writes.map_values(|write: PendingWrite<T>| write.number)
}

impl<T, E> View for SinkLoop<T, E> {
    type V = SinkView<T, E>;

    closed spec fn view(&self) -> SinkView<T, E> {
        SinkView {
            max_events: self.max_events,
            max_bytes: self.max_bytes,
            max_writes: self.max_writes,
            phase: self.phase,
            envelopes: self.envelopes@,
            batches: self.batches@,
            in_flight: numbers(self.in_flight@),
            sequence: self.sequence,
            first_error: self.first_error,
            history: self.history@,
        }
    }
}

impl<T, E> SinkLoop<T, E> {
    /// The loop's accounts are consistent, the collected events and bytes are
    /// counted, and what it holds for each write is the envelopes of that write.
    pub closed spec fn wf(self) -> bool {
        &&& self@.consistent()
        &&& self.events == event_count(self.batches@)
        &&& self.bytes == byte_count(self.batches@)
        &&& forall|i: int|
            0 <= i < self.in_flight@.len() ==> (#[trigger] self.in_flight@[i]).envelopes@
                == self.history@.dispatched[self.in_flight@[i].number as int]
    }

    /// A loop that is well formed has consistent accounts.
    pub proof fn wf_is_consistent(self)
        requires
            self.wf(),
        ensures
            self@.consistent(),
    {
    }

    /// A sink that has taken nothing.
    pub fn new(batching: &BatchSettings, max_concurrent_writes: usize) -> (sink: Self)
        requires
            max_concurrent_writes > 0,
        ensures
            sink.wf(),
            sink@ == (SinkView::<T, E> {
                max_events: batching.max_events,
                max_bytes: batching.max_bytes,
                max_writes: max_concurrent_writes,
                phase: SinkPhase::Accepting,
                envelopes: Seq::empty(),
                batches: Seq::empty(),
                in_flight: Seq::empty(),
                sequence: 0,
                first_error: None,
                history: SinkHistory {
                    accepted: Seq::empty(),
                    carried: Seq::empty(),
                    answers: Seq::empty(),
                    dispatched: Seq::empty(),
                    written: Seq::empty(),
                    results: no_results(),
                },
            }),
    {
        let sink: SinkLoop<T, E> = SinkLoop {
            max_events: batching.max_events,
            max_bytes: batching.max_bytes,
            max_writes: max_concurrent_writes,
            phase: SinkPhase::Accepting,
            envelopes: Vec::new(),
            batches: Vec::new(),
            events: 0,
            bytes: 0,
            in_flight: Vec::new(),
            sequence: 0,
            first_error: None,
            history: Ghost(
                SinkHistory {
                    accepted: Seq::empty(),
                    carried: Seq::empty(),
                    answers: Seq::empty(),
                    dispatched: Seq::empty(),
                    written: Seq::empty(),
                    results: no_results(),
                },
            ),
        };
        proof {
            assert(sink@.in_flight =~= Seq::<u64>::empty());
            assert(sink@.history.accepted =~= groups::concat(sink@.history.dispatched) + sink@.envelopes);
            assert(sink@.history.carried =~= groups::concat(sink@.history.written) + sink@.batches);
        }
        sink
    }

    pub fn phase(&self) -> (phase: SinkPhase)
        ensures
            phase == self@.phase,
    {
        self.phase
    }

    /// Whether a write in flight can be waited for.
    pub fn awaits_write(&self) -> (awaits: bool)
        ensures
            awaits == (self@.in_flight.len() > 0),
    {
        self.in_flight.len() > 0
    }

    /// A shutdown was requested while the sink was waiting for work.
    pub fn on_shutdown(&mut self)
        requires
            old(self).wf(),
            old(self)@.phase == SinkPhase::Accepting,
        ensures
            final(self).wf(),
            final(self)@ == (SinkView { phase: SinkPhase::Draining, ..old(self)@ }),
            final(self)@ == old(self)@.shut_down(),
    {
        self.phase = SinkPhase::Draining;
    }

    /// The queue is closed and empty. What is collected is still written.
    pub fn on_closed(&mut self)
        requires
            old(self).wf(),
            old(self)@.phase == SinkPhase::Accepting || old(self)@.phase
                == SinkPhase::Coalescing,
        ensures
            final(self).wf(),
            final(self)@ == (SinkView {
                phase: if old(self)@.phase == SinkPhase::Accepting {
                    SinkPhase::Draining
                } else {
                    SinkPhase::Collected
                },
                ..old(self)@
            }),
            final(self)@ == old(self)@.closed_off(),
    {
        if self.phase == SinkPhase::Accepting {
            self.phase = SinkPhase::Draining;
        } else {
            self.phase = SinkPhase::Collected;
        }
    }

    /// The linger deadline of the write being collected has passed.
    pub fn on_deadline(&mut self)
        requires
            old(self).wf(),
            old(self)@.phase == SinkPhase::Coalescing,
        ensures
            final(self).wf(),
            final(self)@ == (SinkView { phase: SinkPhase::Collected, ..old(self)@ }),
            final(self)@ == old(self)@.lingered(),
    {
        self.phase = SinkPhase::Collected;
    }

    /// Takes an envelope that carries `batch`. Returns whether it opens a write:
    /// the linger deadline starts then.
    pub fn on_envelope(&mut self, batch: Arc<EventBatch>, envelope: T) -> (opens_write: bool)
        requires
            old(self).wf(),
            old(self)@.phase == SinkPhase::Accepting || old(self)@.phase
                == SinkPhase::Coalescing,
            event_count(old(self)@.batches.push(batch)) <= usize::MAX,
            byte_count(old(self)@.batches.push(batch)) <= usize::MAX,
        ensures
            final(self).wf(),
            opens_write == (old(self)@.phase == SinkPhase::Accepting),
            final(self)@ == old(self)@.with_envelope(batch, envelope),
            ({
                let events = event::all_events(old(self)@.batches.push(batch));
                final(self)@.phase == (if events.len() < old(self)@.max_events && event::total_size(
                    events,
                ) < old(self)@.max_bytes {
                    SinkPhase::Coalescing
                } else {
                    SinkPhase::Collected
                })
            }),
    {
        let ghost before = self@;
        let ghost taken = batch;
        let ghost tag = envelope;
        let opens_write = self.phase == SinkPhase::Accepting;
        proof {
            assert(before.batches.push(taken).drop_last() =~= before.batches);
        }
        self.events = self.events + batch.len();
        self.bytes = self.bytes + batch.bytes();
        self.batches.push(batch);
        self.envelopes.push(envelope);
        self.phase = if self.events < self.max_events && self.bytes < self.max_bytes {
            SinkPhase::Coalescing
        } else {
            SinkPhase::Collected
        };
        proof {
            taking_keeps_the_accounts(before, taken, tag);
            collected_batches_count_all_their_events(before.batches.push(taken));
            self.history@ = before.with_envelope(taken, tag).history;
            assert(self@ == before.with_envelope(taken, tag));
        }
        opens_write
    }

    /// Whether what is collected can be written now.
    pub fn can_dispatch(&self) -> (can: bool)
        ensures
            can == self@.can_dispatch(),
            can == (self@.phase == SinkPhase::Collected && self@.in_flight.len() < self@.max_writes),
    {
        self.phase == SinkPhase::Collected && self.in_flight.len() < self.max_writes
    }

    /// Hands out what is collected, to be written. Queue depth is sampled here
    /// rather than tracked on every send: this is the point where a backed-up
    /// sink actually shows up.
    pub fn dispatch(&mut self, queue_depth: u64, counters: &mut SinkMetrics) -> (job: WriteJob)
        requires
            old(self).wf(),
            old(self)@.phase == SinkPhase::Collected,
            old(self)@.in_flight.len() < old(self)@.max_writes,
            old(self)@.sequence < u64::MAX,
        ensures
            final(self).wf(),
            job.number == old(self)@.sequence,
            job.batches@ == old(self)@.batches,
            final(self)@ == old(self)@.dispatched(),
            *final(counters) == (SinkMetrics { queue_depth, ..*old(counters) }),
    {
        let ghost before = self@;
        let mut batches: Vec<Arc<EventBatch>> = Vec::new();
        let mut envelopes: Vec<T> = Vec::new();
        std::mem::swap(&mut batches, &mut self.batches);
        std::mem::swap(&mut envelopes, &mut self.envelopes);
        self.events = 0;
        self.bytes = 0;
        let number: u64 = self.sequence;
        self.in_flight.push(PendingWrite { number, envelopes });
        self.sequence = self.sequence + 1;
        self.phase = SinkPhase::Accepting;
        counters.queue_depth = queue_depth;
        proof {
            dispatching_keeps_the_accounts(before);
            self.history@ = before.dispatched().history;
            assert(self@.in_flight =~= before.in_flight.push(number));
            assert(self@ == before.dispatched());
            assert forall|i: int| 0 <= i < self.in_flight@.len() implies (
            #[trigger] self.in_flight@[i]).envelopes@
                == self.history@.dispatched[self.in_flight@[i].number as int] by {
                if i < before.in_flight.len() {
                    assert(before.in_flight[i] == self.in_flight@[i].number);
                    assert(before.in_flight[i] < before.sequence);
                }
            }
        }
        WriteJob { number, batches }
    }

    fn position_in_flight(&self, number: u64) -> (at: usize)
        requires
            self@.in_flight.contains(number),
        ensures
            at < self@.in_flight.len(),
            self@.in_flight[at as int] == number,
    {
        let mut at: usize = 0;
        while self.in_flight[at].number != number
            invariant
                at < self.in_flight.len(),
                self@.in_flight.contains(number),
                forall|i: int| 0 <= i < at ==> self@.in_flight[i] != number,
            decreases self.in_flight@.len() - at,
        {
            proof {
                let i = choose|i: int|
                    0 <= i < self@.in_flight.len() && self@.in_flight[i] == number;
                assert(self@.in_flight[at as int] != number);
                assert(i > at);
            }
            at += 1;
        }
        at
    }

    /// Write `number` has ended, and its envelopes are to be answered. A failure
    /// ends the sink, unless it is draining: then the other writes may still
    /// acknowledge, and the first error is kept for the end.
    pub fn on_write_end(
        &mut self,
        number: u64,
        result: Result<WriteOutcome, E>,
        counters: &mut SinkMetrics,
    ) -> (ended: WriteEnded<T, E>)
        requires
            old(self).wf(),
            old(self)@.in_flight.contains(number),
        ensures
            final(self).wf(),
            ended.envelopes@ == old(self)@.history.dispatched[number as int],
            ended.delivered == result is Ok,
            match result {
                Ok(_) => {
                    &&& ended.fatal is None
                    &&& final(self)@ == old(self)@.write_ended(number, None)
                },
                Err(error) => {
                    &&& final(self)@ == old(self)@.write_ended(number, Some(error))
                    &&& ended.fatal == (if old(self)@.phase == SinkPhase::Draining || old(
                        self,
                    )@.phase == SinkPhase::Stopped {
                        None
                    } else {
                        Some(error)
                    })
                },
            },
            *final(counters) == sink::counters_after_write(result, *old(counters)),
    {
        let ghost before = self@;
        let ghost held = self.in_flight@;
        let at = self.position_in_flight(number);
        let write = self.in_flight.remove(at);
        proof {
            let first = before.in_flight.index_of(number);
            assert(before.in_flight[first] == number);
            assert(first == at);
            assert(numbers(self.in_flight@) =~= before.in_flight.remove(first));
            assert forall|i: int| 0 <= i < self.in_flight@.len() implies (
            #[trigger] self.in_flight@[i]).envelopes@
                == self.history@.dispatched[self.in_flight@[i].number as int] by {
                assert(self.in_flight@[i] == held[if i < at { i } else { i + 1 }]);
            }
        }
        let (delivered, outcome) = finish_write(result, counters);
        let fatal = match outcome {
            Ok(()) => {
                proof {
                    ending_keeps_the_accounts(before, number, None::<E>);
                    self.history@ = before.write_ended(number, None).history;
                    assert(self@ == before.write_ended(number, None));
                }
                None
            },
            Err(error) => {
                proof {
                    ending_keeps_the_accounts(before, number, Some(error));
                    self.history@ = before.write_ended(number, Some(error)).history;
                }
                if self.phase == SinkPhase::Draining {
                    if self.first_error.is_none() {
                        self.first_error = Some(error);
                    }
                    None
                } else if self.phase == SinkPhase::Stopped {
                    None
                } else {
                    self.phase = SinkPhase::Stopped;
                    Some(error)
                }
            },
        };
        WriteEnded { envelopes: write.envelopes, delivered, fatal }
    }

    /// The sink is given up: hands back every envelope that has no answer, in the
    /// order in which they were taken. They have failed, which settles them.
    pub fn abandon(self) -> (failed: Vec<T>)
        requires
            self.wf(),
        ensures
            failed@ == unanswered(self@.history.accepted, self@.history.answers),
    {
        let ghost view = self@;
        let ghost held = self.in_flight@;
        let ghost history = self.history@;
        let mut failed: Vec<T> = Vec::new();
        let mut writes = self.in_flight;
        let ghost mut done: int = 0;
        proof {
            let first = if held.len() > 0 {
                view.in_flight[0] as int
            } else {
                view.sequence as int
            };
            lemma_first_waiting(view, 0, first);
            lemma_waiting_skips(history.dispatched, history.results, 0, first);
        }
        while writes.len() > 0
            invariant
                view.consistent(),
                view.history == history,
                view.in_flight == numbers(held),
                0 <= done <= held.len(),
                writes@ == held.skip(done),
                forall|i: int|
                    0 <= i < held.len() ==> (#[trigger] held[i]).envelopes@
                        == history.dispatched[held[i].number as int],
                failed@ == waiting(
                    history.dispatched,
                    history.results,
                    if done < held.len() {
                        view.in_flight[done] as int
                    } else {
                        view.sequence as int
                    },
                ),
            decreases writes@.len(),
        {
            let ghost number = view.in_flight[done];
            let mut write = writes.remove(0);
            assert(write == held[done]);
            failed.append(&mut write.envelopes);
            proof {
                assert(view.in_flight.contains(number));
                assert(number < view.sequence);
                assert(failed@ == waiting(
                    history.dispatched,
                    history.results,
                    number as int + 1,
                ));
                let next = if done + 1 < held.len() {
                    view.in_flight[done + 1] as int
                } else {
                    view.sequence as int
                };
                lemma_first_waiting(view, done + 1, next);
                lemma_waiting_skips(
                    history.dispatched,
                    history.results,
                    number as int + 1,
                    next,
                );
                assert(writes@ =~= held.skip(done + 1));
                done = done + 1;
            }
        }
        let mut collected = self.envelopes;
        failed.append(&mut collected);
        proof {
            lemma_unanswered(view);
        }
        failed
    }

    /// Whether the sink has drained.
    pub fn finished(&self) -> (finished: bool)
        ensures
            finished == self@.finished(),
            finished == (self@.phase == SinkPhase::Draining && self@.in_flight.len() == 0),
    {
        self.phase == SinkPhase::Draining && self.in_flight.len() == 0
    }

    /// How a drained sink ends.
    pub fn outcome(self) -> (outcome: Result<(), E>)
        requires
            self.wf(),
            self@.phase == SinkPhase::Draining,
            self@.in_flight.len() == 0,
        ensures
            match outcome {
                Ok(()) => self@.first_error is None,
                Err(error) => self@.first_error == Some(error),
            },
            outcome is Err <==> self@.has_failed(),
    {
        match self.first_error {
            Some(error) => Err(error),
            None => Ok(()),
        }
    }
}

/// What is held against the limits is every event of every batch collected: their
/// number, and their footprint.
pub proof fn collected_batches_count_all_their_events(batches: Seq<Arc<EventBatch>>)
    ensures
        event_count(batches) == event::all_events(batches).len(),
        byte_count(batches) == event::total_size(event::all_events(batches)),
    decreases batches.len(),
{
    if batches.len() > 0 {
        let front = batches.drop_last();
        let last = (*batches.last())@;
        collected_batches_count_all_their_events(front);
        event::lemma_total_size_concat(event::all_events(front), last);
    }
}

/// The counts of two runs of batches add up.
pub proof fn collected_counts_add_up(left: Seq<Arc<EventBatch>>, right: Seq<Arc<EventBatch>>)
    ensures
        event_count(left + right) == event_count(left) + event_count(right),
        byte_count(left + right) == byte_count(left) + byte_count(right),
    decreases right.len(),
{
    if right.len() == 0 {
        assert(left + right =~= left);
    } else {
        assert((left + right).drop_last() =~= left + right.drop_last());
        collected_counts_add_up(left, right.drop_last());
    }
}

/// A write stays open exactly as long as all its events together are below both
/// limits: one more envelope closes it if it reaches either, and only then.
pub proof fn an_envelope_closes_the_write_at_a_limit<T, E>(
    v: SinkView<T, E>,
    batch: Arc<EventBatch>,
    envelope: T,
)
    ensures
        ({
            let events = event::all_events(v.batches) + (*batch)@;
            let next = v.with_envelope(batch, envelope);
            &&& next.phase == SinkPhase::Collected <==> events.len() >= v.max_events
                || event::total_size(events) >= v.max_bytes
            &&& next.phase == SinkPhase::Coalescing <==> events.len() < v.max_events
                && event::total_size(events) < v.max_bytes
            &&& next.batches == v.batches.push(batch)
            &&& next.envelopes == v.envelopes.push(envelope)
            &&& next.history.accepted == v.history.accepted.push(envelope)
            &&& next.history.carried == v.history.carried.push(batch)
            &&& next.history.answers == v.history.answers.push(Seq::empty())
            &&& next.in_flight == v.in_flight && next.sequence == v.sequence
            &&& next.first_error == v.first_error
            &&& next.history.dispatched == v.history.dispatched
            &&& next.history.written == v.history.written
            &&& next.history.results == v.history.results
            &&& next.max_events == v.max_events && next.max_bytes == v.max_bytes
            &&& next.max_writes == v.max_writes
        }),
{
    let all = v.batches.push(batch);
    assert(all.drop_last() =~= v.batches);
    collected_batches_count_all_their_events(all);
}

/// A write holds all that was collected for it, and every write that was closed
/// by a limit was below both of them without its last batch.
pub proof fn a_write_without_its_last_batch_is_below_the_limits<T, E>(v: SinkView<T, E>, k: u64)
    requires
        v.consistent(),
        k < v.sequence,
    ensures
        ({
            let batches = v.history.written[k as int];
            let others = event::all_events(batches.drop_last());
            &&& batches.len() > 0
            &&& batches.len() > 1 ==> others.len() < v.max_events && event::total_size(others)
                < v.max_bytes
        }),
{
    collected_batches_count_all_their_events(v.history.written[k as int].drop_last());
}

/// Dispatching hands over all that was collected, under the next number.
pub proof fn dispatching_hands_over_what_was_collected<T, E>(v: SinkView<T, E>)
    requires
        v.sequence < u64::MAX,
    ensures
        ({
            let next = v.dispatched();
            &&& next.history.dispatched == v.history.dispatched.push(v.envelopes)
            &&& next.history.written == v.history.written.push(v.batches)
            &&& next.envelopes.len() == 0 && next.batches.len() == 0
            &&& next.in_flight == v.in_flight.push(v.sequence)
            &&& next.sequence == v.sequence + 1
            &&& next.phase == SinkPhase::Accepting
            &&& next.history.accepted == v.history.accepted
            &&& next.history.carried == v.history.carried
            &&& next.history.answers == v.history.answers
            &&& next.history.results == v.history.results
            &&& next.first_error == v.first_error
            &&& next.max_events == v.max_events && next.max_bytes == v.max_bytes
            &&& next.max_writes == v.max_writes
        }),
{
}

/// The end of a write records its result and answers exactly its own envelopes
/// with it. A failure ends the sink at once, unless it is draining: then the first
/// error is kept.
pub proof fn the_end_of_a_write_answers_its_envelopes<T, E>(
    v: SinkView<T, E>,
    k: u64,
    error: Option<E>,
    p: int,
)
    requires
        v.consistent(),
        v.in_flight.contains(k),
        0 <= p < v.history.accepted.len(),
    ensures
        ({
            let next = v.write_ended(k, error);
            let first = groups::concat(v.history.dispatched.take(k as int)).len();
            let own = first <= p < first + v.history.dispatched[k as int].len();
            &&& own ==> next.history.answers[p] == seq![error is None]
            &&& !own ==> next.history.answers[p] == v.history.answers[p]
            &&& next.history.results == v.history.results.insert(k, error is None)
            &&& !next.in_flight.contains(k)
            &&& next.in_flight.len() == v.in_flight.len() - 1
            &&& next.history.accepted == v.history.accepted
            &&& next.history.dispatched == v.history.dispatched
            &&& next.history.written == v.history.written
            &&& next.envelopes == v.envelopes && next.batches == v.batches
            &&& next.sequence == v.sequence
            &&& error is Some && v.phase != SinkPhase::Draining ==> next.phase
                == SinkPhase::Stopped && next.first_error == v.first_error
            &&& error is None || v.phase == SinkPhase::Draining ==> next.phase == v.phase
            &&& v.phase == SinkPhase::Draining && v.first_error is None ==> next.first_error
                == error
            &&& v.first_error is Some ==> next.first_error == v.first_error
            &&& v.phase != SinkPhase::Draining ==> next.first_error == v.first_error
            &&& next.history.answers.len() == v.history.answers.len()
            &&& next.history.carried == v.history.carried
            &&& next.max_events == v.max_events && next.max_bytes == v.max_bytes
            &&& next.max_writes == v.max_writes
            &&& exists|at: int|
                0 <= at < v.in_flight.len() && v.in_flight[at] == k && #[trigger] v.in_flight.remove(
                    at,
                ) == next.in_flight
        }),
{
    let groups = v.history.dispatched;
    let at = v.in_flight.index_of(k);
    assert(v.in_flight[at] == k);
    let next = v.write_ended(k, error);
    assert(v.in_flight.remove(at) == next.in_flight);
    assert(!next.in_flight.contains(k)) by {
        if next.in_flight.contains(k) {
            let i = choose|i: int| 0 <= i < next.in_flight.len() && next.in_flight[i] == k;
            let j = if i < at {
                i
            } else {
                i + 1
            };
            assert(v.in_flight[j] == k);
            assert(v.in_flight[if j < at { j } else { at }] < v.in_flight[if j < at { at } else { j }]);
        }
    }
    let first = groups::place(groups, k as int, 0);
    if first <= p < first + groups[k as int].len() {
        let i = p - first;
        assert(v.history.answers_to(k as int, i) == v.history.owed_by(k));
        assert(Seq::<bool>::empty().push(error is None) =~= seq![error is None]);
    }
}

/// Of the envelopes, those without an answer are picked, in order, and no others.
pub proof fn the_unanswered_are_those_without_an_answer<T>(
    envelopes: Seq<T>,
    answers: Seq<Seq<bool>>,
    envelope: T,
    given: Seq<bool>,
)
    requires
        envelopes.len() == answers.len(),
    ensures
        unanswered(Seq::<T>::empty(), Seq::empty()).len() == 0,
        given.len() == 0 ==> unanswered(envelopes.push(envelope), answers.push(given))
            == unanswered(envelopes, answers).push(envelope),
        given.len() > 0 ==> unanswered(envelopes.push(envelope), answers.push(given)) == unanswered(
            envelopes,
            answers,
        ),
{
    assert(envelopes.push(envelope).drop_last() =~= envelopes);
    assert(answers.push(given).drop_last() =~= answers);
}

/// What has no answer when a sink is given up has failed; an answer that was given
/// stays.
pub proof fn giving_up_fails_only_what_has_no_answer<T>(history: SinkHistory<T>, p: int)
    requires
        0 <= p < history.answers.len(),
    ensures
        history.settled().len() == history.answers.len(),
        history.answers[p].len() == 0 ==> history.settled()[p] == seq![false],
        history.answers[p].len() > 0 ==> history.settled()[p] == history.answers[p],
{
}

/// A sink has failed exactly when one of its writes has.
pub proof fn a_sink_fails_only_with_a_write<T, E>(v: SinkView<T, E>, k: u64)
    ensures
        v.history.results.contains_key(k) && !v.history.results[k] ==> v.has_failed(),
        (forall|j: u64| #[trigger]
            v.history.results.contains_key(j) ==> v.history.results[j]) ==> !v.has_failed(),
{
}

/// However a sink stops taking work, nothing that it collected is lost: what is
/// collected is written first, and only a sink that collected nothing drains.
/// Nothing else changes by it.
pub proof fn stopping_to_take_work_loses_nothing<T, E>(v: SinkView<T, E>)
    requires
        v.consistent(),
    ensures
        v.phase == SinkPhase::Accepting ==> v.closed_off().phase == SinkPhase::Draining
            && v.envelopes.len() == 0 && v.batches.len() == 0,
        v.phase == SinkPhase::Coalescing ==> v.closed_off().phase == SinkPhase::Collected
            && v.lingered().phase == SinkPhase::Collected && v.envelopes.len() > 0,
        v.shut_down().phase == SinkPhase::Draining,
        v.shut_down() == (SinkView { phase: v.shut_down().phase, ..v }),
        v.closed_off() == (SinkView { phase: v.closed_off().phase, ..v }),
        v.lingered() == (SinkView { phase: v.lingered().phase, ..v }),
{
}

/// What is collected is written as soon as a write slot is free: it can be
/// dispatched, or all the slots are taken and a write can be waited for.
pub proof fn what_is_collected_waits_only_for_a_slot<T, E>(v: SinkView<T, E>)
    requires
        v.consistent(),
    ensures
        v.can_dispatch() ==> v.phase == SinkPhase::Collected && v.envelopes.len() > 0,
        v.phase == SinkPhase::Collected && !v.can_dispatch() ==> v.in_flight.len() > 0
            && v.in_flight.len() == v.max_writes,
        v.phase == SinkPhase::Collected && v.in_flight.len() < v.max_writes ==> v.can_dispatch(),
{
}

/// A sink has drained exactly when it takes no more work and no write is in flight;
/// every envelope that it took has then had its answer.
pub proof fn a_drained_sink_owes_no_answer<T, E>(v: SinkView<T, E>, p: int)
    requires
        v.consistent(),
    ensures
        v.finished() <==> v.phase == SinkPhase::Draining && v.in_flight.len() == 0,
        v.finished() && 0 <= p < v.history.accepted.len() ==> v.history.answers[p].len() == 1,
        v.finished() ==> unanswered(v.history.accepted, v.history.answers).len() == 0,
{
    if v.finished() {
        a_clean_end_means_everything_was_delivered(v);
        lemma_none_unanswered(v.history.accepted, v.history.answers);
    }
}

proof fn lemma_none_unanswered<T>(envelopes: Seq<T>, answers: Seq<Seq<bool>>)
    requires
        envelopes.len() == answers.len(),
        forall|p: int| 0 <= p < envelopes.len() ==> (#[trigger] answers[p]).len() == 1,
    ensures
        unanswered(envelopes, answers).len() == 0,
    decreases envelopes.len(),
{
    if envelopes.len() > 0 {
        assert forall|p: int| 0 <= p < envelopes.len() - 1 implies (
        #[trigger] answers.drop_last()[p]).len() == 1 by {
            assert(answers[p].len() == 1);
        }
        lemma_none_unanswered(envelopes.drop_last(), answers.drop_last());
    }
}

} // verus!
