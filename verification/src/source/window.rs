//! The event loop of a Kafka source: micro-batching, the window of batches in
//! flight, and the commit of their contiguous prefix.
//!
//! The loop decides; the runtime around it receives records, sends batches and
//! commits offsets, and reports back what happened.

use crate::config::KafkaSourceConfig;
use crate::event;
use crate::event::{BatchBuffer, Event, EventBatch, EventView};
use crate::groups;
use crate::librdkafka;
use crate::metrics;
use crate::metrics::SourceMetrics;
use crate::source::kafka;
use crate::source::kafka::{
    offsets_for, partition_count, to_event, OffsetsRefused, Record, TopicCache,
};
use rdkafka::topic_partition_list::TopicPartitionList;
use std::collections::BTreeMap;
use std::sync::Arc;
use vstd::prelude::*;

verus! {

broadcast use vstd::std_specs::btree::group_btree_axioms;

/// What is owed to Kafka once a batch is delivered.
pub struct BatchCompletion {
    pub sequence: u64,
    pub offsets: TopicPartitionList,
    pub events: u64,
    /// The footprint of the batch, which counts against the budget.
    pub bytes: usize,
    /// The payloads alone, which are what was consumed.
    pub payload_bytes: usize,
}

impl BatchCompletion {
    /// The completion is that of `batch`, dispatched as number `sequence`.
    pub open spec fn describes(self, sequence: u64, batch: Seq<EventView>) -> bool {
        &&& self.sequence == sequence
        &&& librdkafka::listed_offsets(self.offsets) == kafka::next_offsets(batch)
        &&& self.events == batch.len()
        &&& self.bytes == event::total_size(batch)
        &&& self.payload_bytes == event::payload_bytes(batch)
    }
}

/// A batch to be sent to every destination.
#[derive(Debug)]
pub struct DispatchedBatch {
    pub sequence: u64,
    pub batch: EventBatch,
}

/// Everything that happened to a source so far.
pub ghost struct SourceHistory {
    /// The events received, in order.
    pub received: Seq<EventView>,
    /// The batches dispatched, by sequence number.
    pub batches: Seq<Seq<EventView>>,
    /// The batches that every destination delivered.
    pub acknowledged: Set<u64>,
    /// The batches that some destination did not deliver.
    pub rejected: Set<u64>,
    /// Whether the bytes in flight ever exceeded what a `usize` can count.
    pub saturated: bool,
    /// The payload bytes of the rounds of commits that were counted.
    pub counted_bytes: nat,
}

/// What a [`SourceLoop`] holds.
pub ghost struct SourceView {
    pub component: Seq<char>,
    pub batch_size: usize,
    pub max_batches: usize,
    pub max_bytes: usize,
    pub pending: Seq<EventView>,
    pub in_flight: Set<u64>,
    pub completed: Set<u64>,
    pub sequence: u64,
    pub next_commit: u64,
    pub in_flight_bytes: usize,
    pub round_events: u64,
    pub round_bytes: u64,
    pub processed: u64,
    /// Whether the source goes on: a shutdown or a failure ends it for good.
    pub running: bool,
    pub history: SourceHistory,
}

/// The bytes of those of the first `count` batches that are in `members`.
pub open spec fn bytes_of(batches: Seq<Seq<EventView>>, members: Set<u64>, count: int) -> nat
    decreases count,
{
    if count <= 0 {
        0
    } else {
        bytes_of(batches, members, count - 1) + if members.contains((count - 1) as u64) {
            event::total_size(batches[count - 1])
        } else {
            0
        }
    }
}

impl SourceView {
    /// Batches whose bytes count against the budget: those in flight, and one
    /// that was rejected, which ends the source.
    pub open spec fn charged(self) -> Set<u64> {
        self.in_flight.union(self.history.rejected)
    }

    /// The next batch in line may be committed.
    pub open spec fn can_commit(self) -> bool {
        self.running && self.completed.contains(self.next_commit)
    }

    /// Another batch may be dispatched.
    pub open spec fn admits_batch(self) -> bool {
        self.in_flight.len() < self.max_batches && self.in_flight_bytes < self.max_bytes
    }

    /// A batch in flight can be waited for.
    pub open spec fn awaits_completion(self) -> bool {
        self.running && self.in_flight.len() > 0
    }

    /// The linger deadline matters.
    pub open spec fn awaits_deadline(self) -> bool {
        self.running && self.pending.len() > 0 && self.admits_batch()
    }

    /// Another record may be received.
    pub open spec fn awaits_record(self) -> bool {
        self.running && self.admits_batch() && self.pending.len() < self.batch_size
    }

    /// Every batch dispatched is in flight, rejected, delivered and waiting for
    /// an earlier one, or committed.
    pub open spec fn accounts_for_every_batch(self) -> bool {
        &&& self.history.batches.len() == self.sequence
        &&& self.next_commit <= self.sequence
        &&& forall|k: u64| #[trigger]
            self.in_flight.contains(k) ==> self.next_commit <= k < self.sequence
                && !self.completed.contains(k) && !self.history.rejected.contains(k)
        &&& forall|k: u64| #[trigger]
            self.completed.contains(k) ==> self.next_commit <= k < self.sequence
                && !self.history.rejected.contains(k)
        &&& forall|k: u64| #[trigger]
            self.history.rejected.contains(k) ==> self.next_commit <= k < self.sequence
        &&& forall|k: u64|
            self.next_commit <= k < self.sequence ==> #[trigger] self.in_flight.contains(k)
                || self.completed.contains(k) || self.history.rejected.contains(k)
        &&& forall|k: u64| #[trigger]
            self.history.acknowledged.contains(k) <==> k < self.next_commit
                || self.completed.contains(k)
    }

    /// The bytes in flight are counted, and all but those of the newest batch
    /// are within the budget.
    pub open spec fn accounts_for_every_byte(self) -> bool {
        !self.history.saturated ==> {
            &&& self.in_flight_bytes == bytes_of(
                self.history.batches,
                self.charged(),
                self.sequence as int,
            )
            &&& bytes_of(self.history.batches, self.charged(), self.sequence - 1)
                < self.max_bytes
        }
    }

    /// The events of the committed batches, in order.
    pub open spec fn committed_events(self) -> Seq<EventView> {
        groups::concat(self.history.batches.take(self.next_commit as int))
    }

    /// The events and payload bytes of the committed batches are counted, those
    /// of the last round apart.
    pub open spec fn accounts_for_every_commit(self) -> bool {
        &&& self.processed + self.round_events == self.committed_events().len()
        &&& self.history.counted_bytes + self.round_bytes == event::payload_bytes(
            self.committed_events(),
        )
    }

    /// Every batch dispatched holds at least one event, and no more than the
    /// batch size.
    pub open spec fn bounds_every_batch(self) -> bool {
        forall|k: int|
            0 <= k < self.history.batches.len() ==> 1 <= (#[trigger] self.history.batches[k]).len()
                <= self.batch_size
    }

    /// Holds from the start and after every step.
    pub open spec fn consistent(self) -> bool {
        &&& self.batch_size > 0
        &&& self.max_batches > 0
        &&& self.max_bytes > 0
        &&& self.history.received == groups::concat(self.history.batches) + self.pending
        &&& self.pending.len() <= self.batch_size
        &&& self.bounds_every_batch()
        &&& self.running ==> self.history.rejected.is_empty()
        &&& self.accounts_for_every_batch()
        &&& self.in_flight.finite()
        &&& self.in_flight.len() <= self.max_batches
        &&& self.accounts_for_every_byte()
        &&& self.accounts_for_every_commit()
    }

    /// One more event is pending.
    pub open spec fn with_event(self, event: EventView) -> SourceView {
        SourceView {
            pending: self.pending.push(event),
            history: SourceHistory {
                received: self.history.received.push(event),
                ..self.history
            },
            ..self
        }
    }

    /// The pending events are a batch in flight.
    pub open spec fn dispatched(self) -> SourceView {
        let bytes = self.in_flight_bytes + event::total_size(self.pending);
        SourceView {
            pending: Seq::empty(),
            in_flight: self.in_flight.insert(self.sequence),
            sequence: (self.sequence + 1) as u64,
            in_flight_bytes: if bytes > usize::MAX {
                usize::MAX
            } else {
                bytes as usize
            },
            history: SourceHistory {
                batches: self.history.batches.push(self.pending),
                saturated: self.history.saturated || bytes > usize::MAX,
                ..self.history
            },
            ..self
        }
    }

    /// Batch `k` is delivered to every destination.
    pub open spec fn delivered(self, k: u64) -> SourceView {
        let bytes = event::total_size(self.history.batches[k as int]);
        SourceView {
            in_flight: self.in_flight.remove(k),
            completed: self.completed.insert(k),
            in_flight_bytes: if bytes > self.in_flight_bytes {
                0
            } else {
                (self.in_flight_bytes - bytes) as usize
            },
            history: SourceHistory {
                acknowledged: self.history.acknowledged.insert(k),
                ..self.history
            },
            ..self
        }
    }

    /// The source has ended.
    pub open spec fn ended(self) -> SourceView {
        SourceView { running: false, ..self }
    }

    /// Some destination did not deliver batch `k`, which ends the source.
    pub open spec fn rejected(self, k: u64) -> SourceView {
        SourceView {
            running: false,
            in_flight: self.in_flight.remove(k),
            history: SourceHistory { rejected: self.history.rejected.insert(k), ..self.history },
            ..self
        }
    }

    /// The next batch in line is committed.
    pub open spec fn committed(self) -> SourceView {
        let batch = self.history.batches[self.next_commit as int];
        SourceView {
            completed: self.completed.remove(self.next_commit),
            next_commit: (self.next_commit + 1) as u64,
            round_events: (self.round_events + batch.len()) as u64,
            round_bytes: (self.round_bytes + event::payload_bytes(batch)) as u64,
            ..self
        }
    }

    /// The commits made in a row are added up.
    pub open spec fn round_finished(self) -> SourceView {
        SourceView {
            round_events: 0,
            round_bytes: 0,
            processed: (self.processed + self.round_events) as u64,
            history: SourceHistory {
                counted_bytes: self.history.counted_bytes + self.round_bytes as nat,
                ..self.history
            },
            ..self
        }
    }
}

proof fn lemma_bytes_of_same(
    batches: Seq<Seq<EventView>>,
    others: Seq<Seq<EventView>>,
    members: Set<u64>,
    other_members: Set<u64>,
    count: int,
)
    requires
        0 <= count <= batches.len(),
        count <= others.len(),
        count <= u64::MAX,
        forall|k: int| 0 <= k < count ==> batches[k] == others[k],
        forall|k: u64| k < count ==> (members.contains(k) <==> other_members.contains(k)),
    ensures
        bytes_of(batches, members, count) == bytes_of(others, other_members, count),
    decreases count,
{
    if count > 0 {
        lemma_bytes_of_same(batches, others, members, other_members, count - 1);
    }
}

proof fn lemma_bytes_of_removed(
    batches: Seq<Seq<EventView>>,
    members: Set<u64>,
    k: u64,
    count: int,
)
    requires
        0 <= count <= batches.len(),
        batches.len() <= u64::MAX,
        members.contains(k),
    ensures
        bytes_of(batches, members, count) == bytes_of(batches, members.remove(k), count) + if k
            < count {
            event::total_size(batches[k as int])
        } else {
            0
        },
    decreases count,
{
    if count > 0 {
        lemma_bytes_of_removed(batches, members, k, count - 1);
    }
}

/// A step keeps the accounts: receiving an event.
pub proof fn receiving_keeps_the_accounts(v: SourceView, event: EventView)
    requires
        v.consistent(),
        v.pending.len() < v.batch_size,
    ensures
        v.with_event(event).consistent(),
{
    let next = v.with_event(event);
    assert(next.history.received =~= groups::concat(next.history.batches) + next.pending);
}

/// A step keeps the accounts: dispatching the pending batch.
pub proof fn dispatching_keeps_the_accounts(v: SourceView)
    requires
        v.consistent(),
        v.admits_batch(),
        v.pending.len() > 0,
        v.sequence < u64::MAX,
    ensures
        v.dispatched().consistent(),
{
    let next = v.dispatched();
    assert forall|k: int| 0 <= k < next.history.batches.len() implies 1 <= (
    #[trigger] next.history.batches[k]).len() <= next.batch_size by {
        if k < v.history.batches.len() {
            assert(v.history.batches[k].len() >= 1);
        }
    }
    assert(next.history.batches.drop_last() =~= v.history.batches);
    assert(next.history.received =~= groups::concat(next.history.batches) + next.pending);
    assert(!v.in_flight.contains(v.sequence));
    assert(next.history.batches.take(v.next_commit as int) =~= v.history.batches.take(
        v.next_commit as int,
    ));
    if !next.history.saturated {
        lemma_bytes_of_same(
            v.history.batches,
            next.history.batches,
            v.charged(),
            next.charged(),
            v.sequence as int,
        );
    }
}

/// A step keeps the accounts: a batch is delivered.
pub proof fn delivering_keeps_the_accounts(v: SourceView, k: u64)
    requires
        v.consistent(),
        v.in_flight.contains(k),
    ensures
        v.delivered(k).consistent(),
{
    let next = v.delivered(k);
    if !next.history.saturated {
        assert(next.charged() =~= v.charged().remove(k));
        lemma_bytes_of_removed(v.history.batches, v.charged(), k, v.sequence as int);
        lemma_bytes_of_removed(v.history.batches, v.charged(), k, v.sequence - 1);
    }
}

/// A step keeps the accounts: a batch is rejected.
pub proof fn rejecting_keeps_the_accounts(v: SourceView, k: u64)
    requires
        v.consistent(),
        v.in_flight.contains(k),
    ensures
        v.rejected(k).consistent(),
{
    let next = v.rejected(k);
    assert(next.charged() =~= v.charged());
}

/// A step keeps the accounts: the next batch in line is committed.
pub proof fn committing_keeps_the_accounts(v: SourceView)
    requires
        v.consistent(),
        v.completed.contains(v.next_commit),
        v.round_events + v.history.batches[v.next_commit as int].len() <= u64::MAX,
        v.round_bytes + event::payload_bytes(v.history.batches[v.next_commit as int]) <= u64::MAX,
    ensures
        v.committed().consistent(),
{
    let n = v.next_commit as int;
    event::lemma_payload_bytes_concat(v.committed_events(), v.history.batches[n]);
    assert(v.history.batches.take(n + 1).drop_last() =~= v.history.batches.take(n));
    assert(v.committed().charged() == v.charged());
}

/// A step keeps the accounts: commits are added up.
pub proof fn counting_keeps_the_accounts(v: SourceView)
    requires
        v.consistent(),
        v.processed + v.round_events <= u64::MAX,
    ensures
        v.round_finished().consistent(),
{
    assert(v.round_finished().charged() == v.charged());
}

proof fn lemma_concat_holds(batches: Seq<Seq<EventView>>, k: int, i: int, n: int)
    requires
        0 <= k < n <= batches.len(),
        0 <= i < batches[k].len(),
    ensures
        exists|p: int|
            0 <= p < groups::concat(batches.take(n)).len() && groups::concat(batches.take(n))[p] == batches[k][i],
{
    groups::lemma_concat_prefix(batches, k + 1, n);
    assert(batches.take(k + 1).drop_last() =~= batches.take(k));
    let p = groups::concat(batches.take(k)).len() + i;
    assert(groups::concat(batches.take(k + 1))[p] == batches[k][i]);
    assert(groups::concat(batches.take(n))[p] == batches[k][i]);
}

/// Nothing received is lost, duplicated or reordered: the batches dispatched,
/// followed by what is pending, are the events received.
pub proof fn every_event_is_dispatched_once_in_order(v: SourceView)
    requires
        v.consistent(),
    ensures
        groups::concat(v.history.batches) + v.pending == v.history.received,
{
}

/// Kafka hands out the records of a partition in the order of their offsets.
pub open spec fn in_partition_order(events: Seq<EventView>) -> bool {
    forall|i: int, j: int|
        0 <= i < j < events.len() && kafka::origin(#[trigger] events[i]) == kafka::origin(
            #[trigger] events[j],
        ) ==> events[i].offset < events[j].offset
}

/// At-least-once: an offset that was committed never passes an event whose batch
/// is not committed. Whatever is not acknowledged by every destination, a
/// restart reads again.
pub proof fn no_commit_passes_an_unacknowledged_event(v: SourceView, k: u64, j: int)
    requires
        v.consistent(),
        in_partition_order(v.history.received),
        forall|i: int|
            0 <= i < v.history.received.len() ==> #[trigger] kafka::can_be_committed(
                v.history.received[i],
            ),
        k < v.next_commit,
        groups::concat(v.history.batches.take(v.next_commit as int)).len() <= j
            < v.history.received.len(),
    ensures
        ({
            let offsets = kafka::next_offsets(v.history.batches[k as int]);
            let waiting = v.history.received[j];
            offsets.contains_key(kafka::origin(waiting)) ==> offsets[kafka::origin(waiting)]
                <= waiting.offset
        }),
{
    let batches = v.history.batches;
    let batch = batches[k as int];
    let n = v.next_commit as int;
    let received = v.history.received;
    let waiting = received[j];
    let key = kafka::origin(waiting);
    groups::lemma_concat_prefix(batches, n, batches.len() as int);
    assert(batches.take(batches.len() as int) =~= batches);
    assert forall|i: int| 0 <= i < batch.len() implies #[trigger] kafka::can_be_committed(
        batch[i],
    ) by {
        lemma_concat_holds(batches, k as int, i, n);
        let p = choose|p: int|
            0 <= p < groups::concat(batches.take(n)).len() && groups::concat(batches.take(n))[p] == batch[i];
        assert(received[p] == batch[i]);
        assert(kafka::can_be_committed(received[p]));
    }
    kafka::next_offset_is_one_past_the_highest(batch, key);
    if kafka::next_offsets(batch).contains_key(key) {
        let i = choose|i: int|
            0 <= i < batch.len() && #[trigger] kafka::origin(batch[i]) == key && batch[i].offset
                + 1 == kafka::next_offsets(batch)[key];
        lemma_concat_holds(batches, k as int, i, n);
        let p = choose|p: int|
            0 <= p < groups::concat(batches.take(n)).len() && groups::concat(batches.take(n))[p] == batch[i];
        assert(received[p] == batch[i]);
        assert(received[p].offset < received[j].offset);
    }
}

/// Only batches that every destination acknowledged are committed, and they are
/// a contiguous prefix: once nothing is ready, the first batch that is not
/// committed is one that is not acknowledged.
pub proof fn commits_are_the_contiguous_acknowledged_prefix(v: SourceView)
    requires
        v.consistent(),
    ensures
        forall|k: u64| k < v.next_commit ==> #[trigger] v.history.acknowledged.contains(k),
        !v.completed.contains(v.next_commit) ==> !v.history.acknowledged.contains(v.next_commit),
{
}

/// A batch that any destination rejects is never committed, and neither is any
/// batch after it: the source has ended, and nothing at all is committed any
/// more.
pub proof fn a_rejected_batch_is_never_committed(v: SourceView, k: u64)
    requires
        v.consistent(),
        v.history.rejected.contains(k),
    ensures
        v.next_commit <= k,
        !v.history.acknowledged.contains(k),
        !v.can_commit(),
{
}

/// A shutdown changes no account, and nothing is committed after it: what is in
/// flight or delivered stays uncommitted, and Kafka replays it.
pub proof fn nothing_is_committed_after_a_shutdown(v: SourceView)
    requires
        v.consistent(),
    ensures
        v.ended().consistent(),
        !v.ended().can_commit(),
        v.ended().next_commit == v.next_commit,
        v.ended().committed_events() == v.committed_events(),
        v.ended().history == v.history,
        v.ended().round_finished().next_commit == v.next_commit,
        !v.ended().round_finished().can_commit(),
{
    assert(v.ended().charged() == v.charged());
}

/// An event is counted as processed when its batch is committed, and then once:
/// between two rounds of commits the counts are those of the events in the
/// committed batches, and of their payload bytes.
pub proof fn processed_counts_the_committed_events(v: SourceView)
    requires
        v.consistent(),
        v.round_events == 0,
        v.round_bytes == 0,
    ensures
        v.processed == v.committed_events().len(),
        v.history.counted_bytes == event::payload_bytes(v.committed_events()),
{
}

/// Counting a round keeps the counters in step: `events_in` is the number of
/// events of the committed batches, and `bytes_in` that of their payload bytes,
/// as far as a counter goes before it wraps around.
pub proof fn the_counters_follow_the_commits(v: SourceView, counters: SourceMetrics)
    requires
        v.consistent(),
        v.processed + v.round_events <= u64::MAX,
        counters.events_in == v.processed,
        counters.bytes_in as int == v.history.counted_bytes as int % (u64::MAX + 1),
    ensures
        ({
            let after = v.round_finished();
            let counted = counters_finished(counters, v);
            &&& counted.events_in == after.committed_events().len()
            &&& counted.bytes_in as int == event::payload_bytes(after.committed_events()) as int
                % (u64::MAX + 1)
        }),
{
    let m: int = u64::MAX + 1;
    let c = v.history.counted_bytes as int;
    let r = v.round_bytes as int;
    vstd::arithmetic::div_mod::lemma_add_mod_noop(c, r, m);
    vstd::arithmetic::div_mod::lemma_small_mod(r as nat, m as nat);
    let low = c % m;
    if low + r >= m {
        vstd::arithmetic::div_mod::lemma_mod_add_multiples_vanish(low + r - m, m);
        vstd::arithmetic::div_mod::lemma_small_mod((low + r - m) as nat, m as nat);
    } else {
        vstd::arithmetic::div_mod::lemma_small_mod((low + r) as nat, m as nat);
    }
}

/// Every batch sent holds at least one event and at most `batch_size`, and the
/// batches sent are a prefix of the events received, in order.
pub proof fn every_batch_is_bounded(v: SourceView, k: u64)
    requires
        v.consistent(),
        k < v.sequence,
    ensures
        1 <= v.history.batches[k as int].len() <= v.batch_size,
        groups::concat(v.history.batches) == v.history.received.take(
            groups::concat(v.history.batches).len() as int,
        ),
{
    assert(v.history.batches[k as int].len() >= 1);
    assert(groups::concat(v.history.batches) =~= v.history.received.take(
        groups::concat(v.history.batches).len() as int,
    ));
}

/// No more than `max_in_flight_batches` batches are in flight, whatever their
/// size.
pub proof fn the_window_is_bounded_in_batches(v: SourceView)
    requires
        v.consistent(),
    ensures
        v.in_flight.len() <= v.max_batches,
{
}

/// A batch is sent only while the bytes of the batches already in flight are
/// below `max_in_flight_bytes`, however large it is itself. The bytes are counted
/// in a `usize`; once they have exceeded it, the count is no longer exact.
pub proof fn a_batch_is_sent_below_the_byte_limit(v: SourceView)
    requires
        v.consistent(),
        v.admits_batch(),
        !v.history.saturated,
    ensures
        bytes_of(v.history.batches, v.charged(), v.sequence as int) < v.max_bytes,
{
}

/// The bytes in flight stay below `max_in_flight_bytes` but for the one batch that
/// went over.
pub proof fn the_window_is_bounded(v: SourceView)
    requires
        v.consistent(),
        !v.history.saturated,
    ensures
        v.in_flight_bytes == bytes_of(v.history.batches, v.charged(), v.sequence as int),
        v.sequence == 0 ==> v.in_flight_bytes == 0,
        v.sequence > 0 ==> v.in_flight_bytes < v.max_bytes + event::total_size(
            v.history.batches[v.sequence - 1],
        ),
{
}

proof fn lemma_few_partitions(events: Seq<EventView>)
    ensures
        kafka::next_offsets(events).dom().finite(),
        kafka::next_offsets(events).dom().len() <= events.len(),
    decreases events.len(),
{
    if events.len() > 0 {
        lemma_few_partitions(events.drop_last());
        let before = kafka::next_offsets(events.drop_last());
        let key = kafka::origin(events.last());
        assert(kafka::next_offsets(events).dom() =~= before.dom().insert(key));
    }
}

/// Some resume offset of the batch is negative, which librdkafka refuses.
pub open spec fn has_negative_offset(batch: Seq<EventView>) -> bool {
    exists|key: (Seq<char>, i32)| #[trigger]
        kafka::next_offsets(batch).contains_key(key) && kafka::next_offsets(batch)[key] < 0
}

/// The counters after a batch was dispatched.
pub open spec fn counters_dispatched(counters: SourceMetrics, after: SourceView) -> SourceMetrics {
    SourceMetrics {
        batches_in: metrics::counted(counters.batches_in, 1),
        in_flight_bytes: after.in_flight_bytes as u64,
        in_flight_batches: after.in_flight.len() as u64,
        ..counters
    }
}

/// The counters after a batch was delivered.
pub open spec fn counters_delivered(counters: SourceMetrics, after: SourceView) -> SourceMetrics {
    SourceMetrics {
        in_flight_bytes: after.in_flight_bytes as u64,
        in_flight_batches: after.in_flight.len() as u64,
        ..counters
    }
}

/// The counters after a round of commits was counted.
pub open spec fn counters_finished(counters: SourceMetrics, before: SourceView) -> SourceMetrics {
    SourceMetrics {
        events_in: metrics::counted(counters.events_in, before.round_events),
        bytes_in: metrics::counted(counters.bytes_in, before.round_bytes),
        ..counters
    }
}

/// The state of a running Kafka source.
pub struct SourceLoop {
    component: Arc<str>,
    batch_size: usize,
    max_in_flight_batches: usize,
    max_in_flight_bytes: usize,
    topics: TopicCache,
    buffer: BatchBuffer,
    pending: Vec<Event>,
    in_flight: BTreeMap<u64, BatchCompletion>,
    completed: BTreeMap<u64, BatchCompletion>,
    sequence: u64,
    next_commit: u64,
    in_flight_bytes: usize,
    round_events: u64,
    round_bytes: u64,
    processed: u64,
    running: bool,
    history: Ghost<SourceHistory>,
}

impl View for SourceLoop {
    type V = SourceView;

    closed spec fn view(&self) -> SourceView {
        SourceView {
            component: (*self.component)@,
            batch_size: self.batch_size,
            max_batches: self.max_in_flight_batches,
            max_bytes: self.max_in_flight_bytes,
            pending: event::event_views(self.pending@),
            in_flight: self.in_flight@.dom(),
            completed: self.completed@.dom(),
            sequence: self.sequence,
            next_commit: self.next_commit,
            in_flight_bytes: self.in_flight_bytes,
            round_events: self.round_events,
            round_bytes: self.round_bytes,
            processed: self.processed,
            running: self.running,
            history: self.history@,
        }
    }
}

/// What a received record led to.
pub struct RecordTaken {
    /// The record opens a batch: the linger deadline starts now.
    pub opens_batch: bool,
    /// The record filled the batch, which was dispatched.
    pub dispatched: Option<Result<DispatchedBatch, OffsetsRefused>>,
}

impl SourceLoop {
    /// The loop's accounts are consistent, and what it holds for each batch is
    /// the completion of that batch.
    pub closed spec fn wf(self) -> bool {
        &&& self@.consistent()
        &&& kafka::next_offsets(self@.pending).dom().len() <= librdkafka::MAX_ENTRIES
        &&& self.buffer.chunk() <= isize::MAX
        &&& event::total_size(self@.pending) <= usize::MAX
        &&& forall|i: int|
            0 <= i < self@.pending.len() ==> #[trigger] kafka::can_be_committed(self@.pending[i])
        &&& forall|k: u64| #[trigger]
            self.in_flight@.contains_key(k) ==> self.in_flight@[k].describes(
                k,
                self.history@.batches[k as int],
            )
        &&& forall|k: u64| #[trigger]
            self.completed@.contains_key(k) ==> self.completed@[k].describes(
                k,
                self.history@.batches[k as int],
            )
    }

    /// A loop that is well formed has consistent accounts.
    pub proof fn wf_is_consistent(self)
        requires
            self.wf(),
        ensures
            self@.consistent(),
    {
    }

    /// A source that has received nothing.
    pub fn new(component: &Arc<str>, config: &KafkaSourceConfig) -> (source: Self)
        requires
            config.batch_size > 0,
            config.max_in_flight_batches > 0,
            config.max_in_flight_bytes > 0,
        ensures
            source.wf(),
            source@ == (SourceView {
                component: (**component)@,
                batch_size: config.batch_size,
                max_batches: config.max_in_flight_batches,
                max_bytes: config.max_in_flight_bytes,
                pending: Seq::empty(),
                in_flight: Set::empty(),
                completed: Set::empty(),
                sequence: 0,
                next_commit: 0,
                in_flight_bytes: 0,
                round_events: 0,
                round_bytes: 0,
                processed: 0,
                running: true,
                history: SourceHistory {
                    received: Seq::empty(),
                    batches: Seq::empty(),
                    acknowledged: Set::empty(),
                    rejected: Set::empty(),
                    saturated: false,
                    counted_bytes: 0,
                },
            }),
    {
        let source = SourceLoop {
            component: Arc::clone(component),
            batch_size: config.batch_size,
            max_in_flight_batches: config.max_in_flight_batches,
            max_in_flight_bytes: config.max_in_flight_bytes,
            topics: TopicCache::default(),
            buffer: BatchBuffer::default(),
            pending: Vec::new(),
            in_flight: BTreeMap::new(),
            completed: BTreeMap::new(),
            sequence: 0,
            next_commit: 0,
            in_flight_bytes: 0,
            round_events: 0,
            round_bytes: 0,
            processed: 0,
            running: true,
            history: Ghost(
                SourceHistory {
                    received: Seq::empty(),
                    batches: Seq::empty(),
                    acknowledged: Set::empty(),
                    rejected: Set::empty(),
                    saturated: false,
                    counted_bytes: 0,
                },
            ),
        };
        proof {
            assert(source@.pending =~= Seq::<EventView>::empty());
            lemma_few_partitions(source@.pending);
            assert(source@.in_flight =~= Set::<u64>::empty());
            assert(source@.completed =~= Set::<u64>::empty());
            assert(source@.history.received =~= groups::concat(source@.history.batches)
                + source@.pending);
        }
        source
    }

    pub fn admits_batch(&self) -> (admits: bool)
        requires
            self.wf(),
        ensures
            admits == self@.admits_batch(),
            admits <==> self@.in_flight.len() < self@.max_batches && self@.in_flight_bytes
                < self@.max_bytes,
    {
        self.in_flight.len() < self.max_in_flight_batches && self.in_flight_bytes
            < self.max_in_flight_bytes
    }

    /// Whether a batch in flight can be waited for.
    pub fn awaits_completion(&self) -> (awaits: bool)
        requires
            self.wf(),
        ensures
            awaits == self@.awaits_completion(),
            awaits == (self@.running && self@.in_flight.len() > 0),
    {
        self.running && self.in_flight.len() > 0
    }

    /// Whether the linger deadline matters. Gated on room in the window as well,
    /// so an elapsed timer cannot spin while the window is full.
    pub fn awaits_deadline(&self) -> (awaits: bool)
        requires
            self.wf(),
        ensures
            awaits == self@.awaits_deadline(),
            awaits == (self@.running && self@.pending.len() > 0 && self@.admits_batch()),
            awaits <==> self@.running && self@.pending.len() > 0 && self@.in_flight.len()
                < self@.max_batches && self@.in_flight_bytes < self@.max_bytes,
    {
        self.running && self.pending.len() > 0 && self.admits_batch()
    }

    /// Whether another record may be received.
    pub fn awaits_record(&self) -> (awaits: bool)
        requires
            self.wf(),
        ensures
            awaits == self@.awaits_record(),
            awaits == (self@.running && self@.admits_batch() && self@.pending.len()
                < self@.batch_size),
            awaits <==> self@.running && self@.pending.len() < self@.batch_size
                && self@.in_flight.len() < self@.max_batches && self@.in_flight_bytes
                < self@.max_bytes,
    {
        self.running && self.admits_batch() && self.pending.len() < self.batch_size
    }

    /// Whether the pending batch can take in one more topic and partition: its
    /// offsets go into one list, and such a list has an end.
    pub fn has_room_for_partition(&self) -> (room: bool)
        requires
            self.wf(),
        ensures
            room == (kafka::next_offsets(self@.pending).dom().len() < librdkafka::MAX_ENTRIES),
    {
        proof {
            lemma_few_partitions(self@.pending);
        }
        self.pending.len() < librdkafka::MAX_ENTRIES || partition_count(self.pending.as_slice())
            < librdkafka::MAX_ENTRIES
    }
}

/// Where the pending batch has room for one more topic and partition, it has
/// room for any event.
pub proof fn room_for_a_partition_takes_any_event(pending: Seq<EventView>, event: EventView)
    requires
        kafka::next_offsets(pending).dom().len() < librdkafka::MAX_ENTRIES,
    ensures
        kafka::next_offsets(pending.push(event)).dom().len() <= librdkafka::MAX_ENTRIES,
{
    lemma_few_partitions(pending);
    assert(pending.push(event).drop_last() =~= pending);
    assert(kafka::next_offsets(pending.push(event)).dom() =~= kafka::next_offsets(
        pending,
    ).dom().insert(kafka::origin(event)));
}

impl SourceLoop {
    /// Closes the pending batch and puts it in flight. Offsets that cannot be
    /// recorded end the source.
    fn dispatch(&mut self, counters: &mut SourceMetrics) -> (dispatched: Result<
        DispatchedBatch,
        OffsetsRefused,
    >)
        requires
            old(self).wf(),
            old(self)@.running,
            old(self)@.admits_batch(),
            old(self)@.pending.len() > 0,
            old(self)@.sequence < u64::MAX,
        ensures
            final(self).wf(),
            dispatched is Err <==> has_negative_offset(old(self)@.pending),
            match dispatched {
                Ok(batch) => {
                    &&& batch.sequence == old(self)@.sequence
                    &&& batch.batch@ == old(self)@.pending
                    &&& final(self)@ == old(self)@.dispatched()
                    &&& *final(counters) == counters_dispatched(*old(counters), final(self)@)
                },
                Err(_) => final(self)@ == old(self)@.ended() && *final(counters) == *old(counters),
            },
    {
        let ghost before = self@;
        proof {
            dispatching_keeps_the_accounts(before);
        }
        let offsets = match offsets_for(self.pending.as_slice()) {
            Ok(offsets) => offsets,
            Err(refused) => {
                self.running = false;
                proof {
                    nothing_is_committed_after_a_shutdown(before);
                    assert(self@ == before.ended());
                }
                return Err(refused);
            },
        };
        let mut events: Vec<Event> = Vec::new();
        std::mem::swap(&mut events, &mut self.pending);
        let batch = EventBatch::new(events);
        let event_count: u64 = batch.len() as u64;
        let event_bytes: usize = batch.bytes();
        let payload_bytes: usize = batch.payload_bytes();
        self.in_flight_bytes = self.in_flight_bytes.saturating_add(event_bytes);
        let batch_sequence: u64 = self.sequence;
        self.sequence = self.sequence + 1;
        self.in_flight.insert(
            batch_sequence,
            BatchCompletion {
                sequence: batch_sequence,
                offsets,
                events: event_count,
                bytes: event_bytes,
                payload_bytes,
            },
        );
        proof {
            self.history@ = before.dispatched().history;
            assert(self@.pending =~= Seq::<EventView>::empty());
            lemma_few_partitions(self@.pending);
            assert(self@.in_flight =~= before.dispatched().in_flight);
            assert(self@ == before.dispatched());
        }
        counters.batches_in = counters.batches_in.wrapping_add(1);
        counters.in_flight_bytes = self.in_flight_bytes as u64;
        counters.in_flight_batches = self.in_flight.len() as u64;
        Ok(DispatchedBatch { sequence: batch_sequence, batch })
    }

    /// Takes one more record, and dispatches the batch once it is full.
    pub fn on_record(&mut self, record: &Record<'_>, counters: &mut SourceMetrics) -> (taken:
        RecordTaken)
        requires
            old(self).wf(),
            old(self)@.running,
            old(self)@.admits_batch(),
            old(self)@.pending.len() < old(self)@.batch_size,
            old(self)@.sequence < u64::MAX,
            record.fits(),
            kafka::can_be_committed(record.event(old(self)@.component)),
            event::total_size(
                old(self)@.pending.push(record.event(old(self)@.component)),
            ) <= usize::MAX,
            kafka::next_offsets(
                old(self)@.pending.push(record.event(old(self)@.component)),
            ).dom().len() <= librdkafka::MAX_ENTRIES,
        ensures
            final(self).wf(),
            ({
                let after = old(self)@.with_event(record.event(old(self)@.component));
                let full = after.pending.len() >= after.batch_size;
                &&& taken.opens_batch == (old(self)@.pending.len() == 0)
                &&& taken.dispatched is Some <==> full
                &&& match taken.dispatched {
                    Some(Ok(batch)) => {
                        &&& !has_negative_offset(after.pending)
                        &&& batch.sequence == after.sequence
                        &&& batch.batch@ == after.pending
                        &&& final(self)@ == after.dispatched()
                        &&& *final(counters) == counters_dispatched(*old(counters), final(self)@)
                    },
                    Some(Err(_)) => {
                        &&& has_negative_offset(after.pending)
                        &&& final(self)@ == after.ended()
                        &&& *final(counters) == *old(counters)
                    },
                    None => final(self)@ == after && *final(counters) == *old(counters),
                }
            }),
    {
        let ghost before = self@;
        let opens_batch = self.pending.len() == 0;
        let event = to_event(&self.component, &mut self.topics, &mut self.buffer, record);
        let ghost view = event@;
        self.pending.push(event);
        proof {
            receiving_keeps_the_accounts(before, view);
            self.history@ = before.with_event(view).history;
            assert(self@.pending =~= before.pending.push(view));
            assert(self@ == before.with_event(view));
        }
        let dispatched = if self.pending.len() >= self.batch_size {
            Some(self.dispatch(counters))
        } else {
            None
        };
        RecordTaken { opens_batch, dispatched }
    }

    /// The linger deadline of the pending batch has passed.
    pub fn on_deadline(&mut self, counters: &mut SourceMetrics) -> (dispatched: Result<
        DispatchedBatch,
        OffsetsRefused,
    >)
        requires
            old(self).wf(),
            old(self)@.running,
            old(self)@.admits_batch(),
            old(self)@.pending.len() > 0,
            old(self)@.sequence < u64::MAX,
        ensures
            final(self).wf(),
            dispatched is Err <==> has_negative_offset(old(self)@.pending),
            match dispatched {
                Ok(batch) => {
                    &&& batch.sequence == old(self)@.sequence
                    &&& batch.batch@ == old(self)@.pending
                    &&& final(self)@ == old(self)@.dispatched()
                    &&& *final(counters) == counters_dispatched(*old(counters), final(self)@)
                },
                Err(_) => final(self)@ == old(self)@.ended() && *final(counters) == *old(counters),
            },
    {
        self.dispatch(counters)
    }

    /// The sending of batch `sequence` has ended. A failure ends the source;
    /// the batch stays uncommitted, so Kafka replays it.
    pub fn on_joined<E>(
        &mut self,
        sequence: u64,
        sent: Result<(), E>,
        counters: &mut SourceMetrics,
    ) -> (outcome: Result<(), E>)
        requires
            old(self).wf(),
            old(self)@.running,
            old(self)@.in_flight.contains(sequence),
        ensures
            final(self).wf(),
            match sent {
                Ok(()) => {
                    &&& outcome is Ok
                    &&& final(self)@ == old(self)@.delivered(sequence)
                    &&& *final(counters) == counters_delivered(*old(counters), final(self)@)
                },
                Err(error) => {
                    &&& outcome == Err::<(), E>(error)
                    &&& final(self)@ == old(self)@.rejected(sequence)
                    &&& *final(counters) == *old(counters)
                },
            },
    {
        let ghost before = self@;
        proof {
            delivering_keeps_the_accounts(before, sequence);
            rejecting_keeps_the_accounts(before, sequence);
        }
        let completion = self.in_flight.remove(&sequence).unwrap();
        match sent {
            Ok(()) => {
                self.in_flight_bytes = self.in_flight_bytes.saturating_sub(completion.bytes);
                self.completed.insert(sequence, completion);
                proof {
                    self.history@ = before.delivered(sequence).history;
                    assert(self@.in_flight =~= before.delivered(sequence).in_flight);
                    assert(self@.completed =~= before.delivered(sequence).completed);
                    assert(self@ == before.delivered(sequence));
                }
                counters.in_flight_bytes = self.in_flight_bytes as u64;
                counters.in_flight_batches = self.in_flight.len() as u64;
                Ok(())
            },
            Err(error) => {
                self.running = false;
                proof {
                    self.history@ = before.rejected(sequence).history;
                    assert(self@.in_flight =~= before.rejected(sequence).in_flight);
                    assert(self@ == before.rejected(sequence));
                }
                Err(error)
            },
        }
    }

    /// A shutdown was requested. The source ends well, and commits nothing more:
    /// batches in flight are dropped without committing their offsets, so Kafka
    /// replays them on restart.
    pub fn on_shutdown<E>(&mut self) -> (outcome: Result<(), E>)
        requires
            old(self).wf(),
            old(self)@.running,
        ensures
            final(self).wf(),
            outcome is Ok,
            final(self)@ == old(self)@.ended(),
            !final(self)@.can_commit(),
            final(self)@.next_commit == old(self)@.next_commit,
    {
        let ghost before = self@;
        self.running = false;
        proof {
            nothing_is_committed_after_a_shutdown(before);
            assert(self@ == before.ended());
        }
        Ok(())
    }

    /// The next batch to commit: the first one that is not committed, provided
    /// it is delivered and the source goes on.
    pub fn ready(&self) -> (completion: Option<&BatchCompletion>)
        requires
            self.wf(),
        ensures
            match completion {
                Some(completion) => {
                    &&& self@.can_commit()
                    &&& completion.describes(
                        self@.next_commit,
                        self@.history.batches[self@.next_commit as int],
                    )
                },
                None => !self@.can_commit(),
            },
            completion is Some <==> self@.running && self@.history.acknowledged.contains(
                self@.next_commit,
            ),
            completion matches Some(completion) ==> {
                let batch = self@.history.batches[self@.next_commit as int];
                &&& completion.sequence == self@.next_commit
                &&& librdkafka::listed_offsets(completion.offsets) == kafka::next_offsets(batch)
                &&& completion.events == batch.len()
                &&& completion.bytes == event::total_size(batch)
                &&& completion.payload_bytes == event::payload_bytes(batch)
            },
    {
        proof {
            if self.running {
                the_next_batch_is_committed_once_acknowledged(self@);
            }
        }
        if self.running {
            self.completed.get(&self.next_commit)
        } else {
            None
        }
    }

    /// The offsets of the ready batch were committed.
    pub fn on_committed(&mut self, counters: &mut SourceMetrics)
        requires
            old(self).wf(),
            old(self)@.can_commit(),
            old(self)@.round_events + old(self)@.history.batches[old(
                self,
            )@.next_commit as int].len() <= u64::MAX,
            old(self)@.round_bytes + event::payload_bytes(
                old(self)@.history.batches[old(self)@.next_commit as int],
            ) <= u64::MAX,
        ensures
            final(self).wf(),
            final(self)@ == old(self)@.committed(),
            *final(counters) == (SourceMetrics {
                commits: metrics::counted(old(counters).commits, 1),
                ..*old(counters)
            }),
    {
        let ghost before = self@;
        proof {
            committing_keeps_the_accounts(before);
        }
        let completion = self.completed.remove(&self.next_commit).unwrap();
        self.round_events = self.round_events + completion.events;
        self.round_bytes = self.round_bytes + completion.payload_bytes as u64;
        counters.commits = counters.commits.wrapping_add(1);
        self.next_commit = self.next_commit + 1;
        proof {
            assert(self@.completed =~= before.committed().completed);
            assert(self@ == before.committed());
        }
    }

    /// Nothing more is ready: the commits made since the last call are counted.
    /// Events are counted here rather than when they are consumed: an event only
    /// really made it once every sink acknowledged it. Returns how many were
    /// committed, and how many in all.
    pub fn finish_round(&mut self, counters: &mut SourceMetrics) -> (committed: (u64, u64))
        requires
            old(self).wf(),
            old(self)@.processed + old(self)@.round_events <= u64::MAX,
        ensures
            final(self).wf(),
            final(self)@ == old(self)@.round_finished(),
            committed == (old(self)@.round_events, final(self)@.processed),
            *final(counters) == counters_finished(*old(counters), old(self)@),
            final(counters).events_in as int == (old(counters).events_in + old(self)@.round_events)
                % 0x1_0000_0000_0000_0000,
            final(counters).bytes_in as int == (old(counters).bytes_in + old(self)@.round_bytes)
                % 0x1_0000_0000_0000_0000,
            final(counters).batches_in == old(counters).batches_in,
            final(counters).commits == old(counters).commits,
            final(counters).rebalances == old(counters).rebalances,
            final(counters).in_flight_bytes == old(counters).in_flight_bytes,
            final(counters).in_flight_batches == old(counters).in_flight_batches,
    {
        let ghost before = self@;
        proof {
            metrics::a_counter_wraps_around(counters.events_in, before.round_events);
            metrics::a_counter_wraps_around(counters.bytes_in, before.round_bytes);
        }
        let events: u64 = self.round_events;
        let bytes: u64 = self.round_bytes;
        self.processed = self.processed + events;
        self.round_events = 0;
        self.round_bytes = 0;
        counters.events_in = counters.events_in.wrapping_add(events);
        counters.bytes_in = counters.bytes_in.wrapping_add(bytes);
        proof {
            counting_keeps_the_accounts(before);
            self.history@ = before.round_finished().history;
            assert(self@ == before.round_finished());
        }
        (events, self.processed)
    }
}

/// While a source runs, the next batch in line is committed as soon as every
/// destination has acknowledged it, whatever is in flight behind it; and not
/// before.
pub proof fn the_next_batch_is_committed_once_acknowledged(v: SourceView)
    requires
        v.consistent(),
        v.running,
    ensures
        v.can_commit() <==> v.history.acknowledged.contains(v.next_commit),
        v.history.acknowledged.contains(v.next_commit) ==> v.next_commit < v.sequence,
{
}

/// Commits never fall behind: once a round is over, with nothing left to commit,
/// every batch before the first one that is not acknowledged is committed.
pub proof fn commits_reach_the_first_unacknowledged_batch(v: SourceView, k: u64)
    requires
        v.consistent(),
        v.running,
        !v.can_commit(),
        k < v.sequence,
        forall|j: u64| j <= k ==> #[trigger] v.history.acknowledged.contains(j),
    ensures
        k < v.next_commit,
{
    if v.next_commit <= k {
        assert(v.history.acknowledged.contains(v.next_commit));
    }
}

/// A source with nothing in flight admits a batch, so it never stalls by itself.
pub proof fn an_idle_source_admits_a_batch(v: SourceView)
    requires
        v.consistent(),
        v.running,
        v.in_flight.len() == 0,
        !v.history.saturated,
    ensures
        v.admits_batch(),
{
    assert(v.charged() =~= Set::<u64>::empty()) by {
        assert(v.history.rejected =~= Set::<u64>::empty());
        assert(v.in_flight =~= Set::<u64>::empty());
    }
    the_bytes_of_batches_add_up(v.history.batches, v.charged(), 0, v.sequence as int);
}

/// The bytes of some batches: none for no batch, and each further one adds its
/// footprint once.
pub proof fn the_bytes_of_batches_add_up(
    batches: Seq<Seq<EventView>>,
    members: Set<u64>,
    k: u64,
    count: int,
)
    requires
        0 <= count <= batches.len(),
        batches.len() <= u64::MAX,
    ensures
        bytes_of(batches, Set::empty(), count) == 0,
        !members.contains(k) && k < count ==> bytes_of(batches, members.insert(k), count)
            == bytes_of(batches, members, count) + event::total_size(batches[k as int]),
        !members.contains(k) && k >= count ==> bytes_of(batches, members.insert(k), count)
            == bytes_of(batches, members, count),
    decreases count,
{
    if count > 0 {
        the_bytes_of_batches_add_up(batches, members, k, count - 1);
    }
}

/// Where offsets are refused, everything that the batch consumed from some
/// partition lies so far below zero that its resume offset is negative: the
/// partition is that of the event at the position returned.
pub proof fn refused_offsets_are_negative(batch: Seq<EventView>) -> (i: int)
    requires
        forall|i: int| 0 <= i < batch.len() ==> (#[trigger] batch[i]).offset < i64::MAX,
        has_negative_offset(batch),
    ensures
        0 <= i < batch.len(),
        forall|j: int|
            0 <= j < batch.len() && (#[trigger] batch[j]).topic == batch[i].topic
                && batch[j].partition == batch[i].partition ==> batch[j].offset + 1 < 0,
{
    let next = kafka::next_offsets(batch);
    let key = choose|key: (Seq<char>, i32)| #[trigger] next.contains_key(key) && next[key] < 0;
    let (topic, partition) = key;
    assert(key == (topic, partition));
    kafka::a_partition_resumes_past_its_highest_offset(batch, topic, partition);
    choose|i: int|
        0 <= i < batch.len() && (#[trigger] batch[i]).topic == topic && batch[i].partition
            == partition && next[(topic, partition)] == batch[i].offset + 1
}

/// Negative resume offsets are always refused.
pub proof fn negative_offsets_are_refused(batch: Seq<EventView>, i: int)
    requires
        forall|i: int| 0 <= i < batch.len() ==> (#[trigger] batch[i]).offset < i64::MAX,
        0 <= i < batch.len(),
        forall|j: int|
            0 <= j < batch.len() && (#[trigger] batch[j]).topic == batch[i].topic
                && batch[j].partition == batch[i].partition ==> batch[j].offset + 1 < 0,
    ensures
        has_negative_offset(batch),
{
    let next = kafka::next_offsets(batch);
    let topic = batch[i].topic;
    let partition = batch[i].partition;
    kafka::a_partition_resumes_past_its_highest_offset(batch, topic, partition);
    assert(next.contains_key((topic, partition)) && next[(topic, partition)] < 0);
}

/// Receiving an event adds it behind what is pending, and to what was received;
/// nothing is sent, acknowledged or committed by it.
pub proof fn receiving_only_adds_the_event(v: SourceView, event: EventView)
    ensures
        ({
            let next = v.with_event(event);
            &&& next.pending == v.pending.push(event)
            &&& next.history.received == v.history.received.push(event)
            &&& next.history.batches == v.history.batches
            &&& next.history.acknowledged == v.history.acknowledged
            &&& next.history.rejected == v.history.rejected
            &&& next.in_flight == v.in_flight && next.completed == v.completed
            &&& next.sequence == v.sequence && next.next_commit == v.next_commit
            &&& next.in_flight_bytes == v.in_flight_bytes
            &&& next.processed == v.processed && next.round_events == v.round_events
            &&& next.round_bytes == v.round_bytes && next.running == v.running
            &&& next.component == v.component && next.batch_size == v.batch_size
            &&& next.max_batches == v.max_batches && next.max_bytes == v.max_bytes
        }),
{
}

/// Dispatching sends everything pending as one batch under the next number, and
/// charges its footprint.
pub proof fn dispatching_sends_what_is_pending(v: SourceView)
    requires
        v.sequence < u64::MAX,
    ensures
        ({
            let next = v.dispatched();
            &&& next.pending.len() == 0
            &&& next.history.batches == v.history.batches.push(v.pending)
            &&& next.history.received == v.history.received
            &&& next.history.acknowledged == v.history.acknowledged
            &&& next.history.rejected == v.history.rejected
            &&& next.in_flight == v.in_flight.insert(v.sequence) && next.completed == v.completed
            &&& next.sequence == v.sequence + 1 && next.next_commit == v.next_commit
            &&& v.in_flight_bytes + event::total_size(v.pending) <= usize::MAX
                ==> next.in_flight_bytes == v.in_flight_bytes + event::total_size(v.pending)
            &&& v.in_flight_bytes + event::total_size(v.pending) > usize::MAX
                ==> next.in_flight_bytes == usize::MAX
            &&& next.processed == v.processed && next.round_events == v.round_events
            &&& next.round_bytes == v.round_bytes && next.running == v.running
            &&& next.component == v.component && next.batch_size == v.batch_size
            &&& next.max_batches == v.max_batches && next.max_bytes == v.max_bytes
        }),
{
}

/// Delivering a batch acknowledges that batch and no other, and gives its bytes
/// back; it commits nothing by itself.
pub proof fn delivering_acknowledges_one_batch(v: SourceView, k: u64)
    requires
        v.consistent(),
        v.in_flight.contains(k),
    ensures
        ({
            let next = v.delivered(k);
            let bytes = event::total_size(v.history.batches[k as int]);
            &&& next.history.acknowledged == v.history.acknowledged.insert(k)
            &&& next.history.batches == v.history.batches
            &&& next.history.received == v.history.received
            &&& next.history.rejected == v.history.rejected
            &&& next.in_flight == v.in_flight.remove(k)
            &&& next.completed == v.completed.insert(k)
            &&& next.next_commit == v.next_commit && next.sequence == v.sequence
            &&& next.pending == v.pending
            &&& bytes <= v.in_flight_bytes ==> next.in_flight_bytes == v.in_flight_bytes - bytes
            &&& bytes > v.in_flight_bytes ==> next.in_flight_bytes == 0
            &&& next.processed == v.processed && next.round_events == v.round_events
            &&& next.round_bytes == v.round_bytes && next.running == v.running
            &&& next.component == v.component && next.batch_size == v.batch_size
            &&& next.max_batches == v.max_batches && next.max_bytes == v.max_bytes
        }),
{
}

/// A rejected batch ends the source, which stays as it was otherwise.
pub proof fn rejecting_ends_the_source(v: SourceView, k: u64)
    ensures
        ({
            let next = v.rejected(k);
            &&& !next.running
            &&& next.history.rejected == v.history.rejected.insert(k)
            &&& next.history.acknowledged == v.history.acknowledged
            &&& next.history.batches == v.history.batches
            &&& next.history.received == v.history.received
            &&& next.in_flight == v.in_flight.remove(k)
            &&& next.completed == v.completed && next.pending == v.pending
            &&& next.next_commit == v.next_commit && next.sequence == v.sequence
            &&& next.in_flight_bytes == v.in_flight_bytes && next.processed == v.processed
            &&& next.round_events == v.round_events && next.round_bytes == v.round_bytes
            &&& next.component == v.component && next.batch_size == v.batch_size
            &&& next.max_batches == v.max_batches && next.max_bytes == v.max_bytes
        }),
{
}

/// Where a source ends otherwise, it only stops: it keeps all it holds, and
/// commits nothing of it.
pub proof fn ending_only_stops_the_source(v: SourceView)
    ensures
        ({
            let next = v.ended();
            &&& !next.running && !next.can_commit()
            &&& next.history == v.history && next.pending == v.pending
            &&& next.in_flight == v.in_flight && next.completed == v.completed
            &&& next.sequence == v.sequence && next.next_commit == v.next_commit
            &&& next.in_flight_bytes == v.in_flight_bytes && next.processed == v.processed
            &&& next.round_events == v.round_events && next.round_bytes == v.round_bytes
            &&& next.component == v.component && next.batch_size == v.batch_size
            &&& next.max_batches == v.max_batches && next.max_bytes == v.max_bytes
        }),
{
}

/// A commit moves on by exactly one batch, and counts its events and payload
/// bytes.
pub proof fn committing_moves_on_by_one_batch(v: SourceView)
    requires
        v.consistent(),
        v.can_commit(),
        v.round_events + v.history.batches[v.next_commit as int].len() <= u64::MAX,
        v.round_bytes + event::payload_bytes(v.history.batches[v.next_commit as int]) <= u64::MAX,
    ensures
        ({
            let next = v.committed();
            let batch = v.history.batches[v.next_commit as int];
            &&& next.next_commit == v.next_commit + 1
            &&& next.completed == v.completed.remove(v.next_commit)
            &&& next.round_events == v.round_events + batch.len()
            &&& next.round_bytes == v.round_bytes + event::payload_bytes(batch)
            &&& next.committed_events() == v.committed_events() + batch
            &&& next.history == v.history && next.in_flight == v.in_flight
            &&& next.pending == v.pending && next.sequence == v.sequence
            &&& next.in_flight_bytes == v.in_flight_bytes && next.processed == v.processed
            &&& next.running == v.running
            &&& next.component == v.component && next.batch_size == v.batch_size
            &&& next.max_batches == v.max_batches && next.max_bytes == v.max_bytes
        }),
{
    let n = v.next_commit as int;
    assert(v.history.batches.take(n + 1).drop_last() =~= v.history.batches.take(n));
    assert(v.committed().committed_events() =~= v.committed_events() + v.history.batches[n]);
}

/// The committed events are those of the first batches, as many as are committed.
pub proof fn the_committed_events_are_those_of_the_first_batches(v: SourceView)
    ensures
        v.committed_events() == groups::concat(v.history.batches.take(v.next_commit as int)),
        v.next_commit == 0 ==> v.committed_events().len() == 0,
{
    if v.next_commit == 0 {
        assert(v.history.batches.take(0) =~= Seq::<Seq<EventView>>::empty());
    }
}

/// Counting a round adds it to what was processed, once.
pub proof fn counting_adds_the_round_once(v: SourceView)
    requires
        v.processed + v.round_events <= u64::MAX,
    ensures
        ({
            let next = v.round_finished();
            &&& next.processed == v.processed + v.round_events
            &&& next.round_events == 0 && next.round_bytes == 0
            &&& next.next_commit == v.next_commit && next.committed_events()
                == v.committed_events()
            &&& next.in_flight == v.in_flight && next.completed == v.completed
            &&& next.pending == v.pending && next.sequence == v.sequence
            &&& next.in_flight_bytes == v.in_flight_bytes && next.running == v.running
            &&& v.round_finished().round_finished().processed == next.processed
            &&& next.history.received == v.history.received
            &&& next.history.batches == v.history.batches
            &&& next.history.acknowledged == v.history.acknowledged
            &&& next.history.rejected == v.history.rejected
            &&& next.component == v.component && next.batch_size == v.batch_size
            &&& next.max_batches == v.max_batches && next.max_bytes == v.max_bytes
        }),
{
}

/// The gauges show what is in flight after each step, and a dispatch counts one
/// batch.
pub proof fn the_gauges_show_the_window(counters: SourceMetrics, after: SourceView)
    ensures
        ({
            let sent = counters_dispatched(counters, after);
            &&& sent.batches_in as int == (counters.batches_in + 1) % 0x1_0000_0000_0000_0000
            &&& sent.in_flight_bytes == after.in_flight_bytes as u64
            &&& sent.in_flight_batches == after.in_flight.len() as u64
            &&& sent.events_in == counters.events_in && sent.bytes_in == counters.bytes_in
            &&& sent.commits == counters.commits && sent.rebalances == counters.rebalances
        }),
        ({
            let got = counters_delivered(counters, after);
            &&& got.in_flight_bytes == after.in_flight_bytes as u64
            &&& got.in_flight_batches == after.in_flight.len() as u64
            &&& got.batches_in == counters.batches_in
            &&& got.events_in == counters.events_in && got.bytes_in == counters.bytes_in
            &&& got.commits == counters.commits && got.rebalances == counters.rebalances
        }),
{
    metrics::a_counter_wraps_around(counters.batches_in, 1);
}

/// A batch is admitted exactly while both the batches and the bytes in flight are
/// below their limits.
pub proof fn admission_ends_at_either_limit(v: SourceView)
    ensures
        v.in_flight.len() >= v.max_batches ==> !v.admits_batch(),
        v.in_flight_bytes >= v.max_bytes ==> !v.admits_batch(),
        v.in_flight.len() < v.max_batches && v.in_flight_bytes < v.max_bytes ==> v.admits_batch(),
{
}

/// What a source waits for: records and its deadline only while a batch is admitted,
/// and batches in flight while there are any. One that has ended waits for nothing,
/// and one that runs never waits for nothing, so it cannot stall by itself.
pub proof fn a_running_source_always_waits_for_something(v: SourceView)
    requires
        v.consistent(),
        !v.history.saturated,
    ensures
        v.running ==> v.awaits_record() || v.awaits_deadline() || v.awaits_completion(),
        !v.running ==> !v.awaits_record() && !v.awaits_deadline() && !v.awaits_completion(),
        v.awaits_completion() <==> v.running && v.in_flight.len() > 0,
        v.running && v.in_flight.len() >= v.max_batches ==> !v.awaits_record()
            && !v.awaits_deadline(),
        v.running && v.in_flight_bytes >= v.max_bytes ==> !v.awaits_record()
            && !v.awaits_deadline(),
        v.running && v.in_flight.len() < v.max_batches && v.in_flight_bytes < v.max_bytes ==> {
            &&& v.awaits_record() <==> v.pending.len() < v.batch_size
            &&& v.awaits_deadline() <==> v.pending.len() > 0
        },
{
    if v.running && v.in_flight.len() == 0 {
        an_idle_source_admits_a_batch(v);
    }
}

} // verus!
