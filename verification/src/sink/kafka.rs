//! The Kafka sink: every event of a write becomes a record, and the write ends
//! once each of them has been settled.

use crate::config::KafkaSinkConfig;
use crate::event;
use crate::event::{Event, EventBatch, EventView};
use crate::librdkafka;
use crate::librdkafka::{set_properties, set_property};
use crate::sink::{BatchSettings, WriteOutcome};
use crate::source::kafka::Record;
use crate::text;
use rdkafka::ClientConfig;
use std::sync::Arc;
use vstd::prelude::*;

verus! {

/// How long to wait before re-offering a record librdkafka refused because its
/// queue was full, in milliseconds.
pub const QUEUE_FULL_BACKOFF_MS: u64 = 2;

/// Tracks the delivery reports of one write.
///
/// Every record of a write shares one tracker: the hot path per delivery report
/// is a single subtraction, and the whole write wakes once. `N` is what the
/// write waits on, `E` what a delivery fails with.
#[derive(Debug)]
pub struct BatchTracker<E, N> {
    pub remaining: usize,
    pub failed: bool,
    pub error: Option<E>,
    pub notify: Option<N>,
}

/// A tracker of `records` records, none of them settled.
pub open spec fn unsettled<E, N>(records: usize, notify: N) -> BatchTracker<E, N> {
    BatchTracker { remaining: records, failed: false, error: None, notify: Some(notify) }
}

/// The tracker after `count` more records are settled. The first error is kept.
pub open spec fn settled<E, N>(
    tracker: BatchTracker<E, N>,
    count: usize,
    error: Option<E>,
) -> BatchTracker<E, N> {
    if count == 0 {
        tracker
    } else {
        BatchTracker {
            remaining: (tracker.remaining - count) as usize,
            failed: tracker.failed || error is Some,
            error: if error is Some && !tracker.failed {
                error
            } else {
                tracker.error
            },
            notify: if tracker.remaining == count {
                None
            } else {
                tracker.notify
            },
        }
    }
}

/// What is woken when `count` more records are settled: whoever waits, once
/// they are the last ones.
pub open spec fn woken<E, N>(tracker: BatchTracker<E, N>, count: usize) -> Option<N> {
    if count > 0 && tracker.remaining == count {
        tracker.notify
    } else {
        None
    }
}

impl<E, N> BatchTracker<E, N> {
    pub fn new(records: usize, notify: N) -> (tracker: Self)
        ensures
            tracker == unsettled::<E, N>(records, notify),
            tracker.remaining == records,
            !tracker.failed,
            tracker.error is None,
            tracker.notify == Some(notify),
    {
        BatchTracker { remaining: records, failed: false, error: None, notify: Some(notify) }
    }

    /// Settles `count` records, recording the first error seen. Returns what to
    /// wake when none are left.
    pub fn settle(&mut self, count: usize, error: Option<E>) -> (wake: Option<N>)
        requires
            count <= old(self).remaining,
        ensures
            *final(self) == settled(*old(self), count, error),
            wake == woken(*old(self), count),
            final(self).remaining == old(self).remaining - count,
            count == 0 ==> wake is None && *final(self) == *old(self),
            count > 0 && count < old(self).remaining ==> wake is None && final(self).notify == old(
                self,
            ).notify,
            count > 0 && count == old(self).remaining ==> wake == old(self).notify && final(self).notify is None,
            count > 0 ==> (final(self).failed <==> old(self).failed || error is Some),
            old(self).failed || error is None ==> final(self).error == old(self).error,
            count > 0 && !old(self).failed && error is Some ==> final(self).error == error,
    {
        if count == 0 {
            return None;
        }
        if error.is_some() && !self.failed {
            self.failed = true;
            self.error = error;
        }
        let last = self.remaining == count;
        self.remaining = self.remaining - count;
        if last {
            self.notify.take()
        } else {
            None
        }
    }

    /// Takes the error to report.
    pub fn take_error(&mut self) -> (error: Option<E>)
        ensures
            error == old(self).error,
            *final(self) == (BatchTracker { error: None, ..*old(self) }),
    {
        self.error.take()
    }
}

/// One report: how many records it settles, and how they failed if they did.
pub ghost struct Settlement<E> {
    pub count: usize,
    pub error: Option<E>,
}

/// The records that some reports settle.
pub open spec fn settled_records<E>(reports: Seq<Settlement<E>>) -> nat
    decreases reports.len(),
{
    if reports.len() == 0 {
        0
    } else {
        settled_records(reports.drop_last()) + reports.last().count as nat
    }
}

/// The first error among some reports. One that settles nothing has no say.
pub open spec fn first_error<E>(reports: Seq<Settlement<E>>) -> Option<E>
    decreases reports.len(),
{
    if reports.len() == 0 {
        None
    } else {
        match first_error(reports.drop_last()) {
            Some(error) => Some(error),
            None => if reports.last().count > 0 {
                reports.last().error
            } else {
                None
            },
        }
    }
}

/// What reports settle adds up, and of their errors the earliest counts.
pub proof fn reports_add_up<E>(reports: Seq<Settlement<E>>, next: Settlement<E>)
    ensures
        settled_records(Seq::<Settlement<E>>::empty()) == 0,
        settled_records(reports.push(next)) == settled_records(reports) + next.count,
        first_error(Seq::<Settlement<E>>::empty()) is None,
        first_error(reports) is Some ==> first_error(reports.push(next)) == first_error(reports),
        first_error(reports) is None && next.count > 0 ==> first_error(reports.push(next))
            == next.error,
        first_error(reports) is None && next.count == 0 ==> first_error(reports.push(next)) is None,
{
    assert(reports.push(next).drop_last() =~= reports);
}

/// The tracker after some reports.
pub open spec fn settled_all<E, N>(
    tracker: BatchTracker<E, N>,
    reports: Seq<Settlement<E>>,
) -> BatchTracker<E, N>
    decreases reports.len(),
{
    if reports.len() == 0 {
        tracker
    } else {
        settled(
            settled_all(tracker, reports.drop_last()),
            reports.last().count,
            reports.last().error,
        )
    }
}

proof fn lemma_settled_all<E, N>(records: usize, notify: N, reports: Seq<Settlement<E>>)
    requires
        settled_records(reports) <= records,
    ensures
        settled_all(unsettled::<E, N>(records, notify), reports) == (BatchTracker {
            remaining: (records - settled_records(reports)) as usize,
            failed: first_error(reports) is Some,
            error: first_error(reports),
            notify: if records > 0 && settled_records(reports) == records {
                None
            } else {
                Some(notify)
            },
        }),
    decreases reports.len(),
{
    if reports.len() > 0 {
        lemma_settled_all(records, notify, reports.drop_last());
    }
}

/// However the records of a write are settled, the write wakes exactly once,
/// with the report that settles the last of them, and finds the first error
/// reported. A report that settles nothing wakes nobody.
pub proof fn a_write_wakes_once_when_every_record_is_settled<E, N>(
    records: usize,
    notify: N,
    reports: Seq<Settlement<E>>,
)
    requires
        reports.len() > 0,
        settled_records(reports) <= records,
    ensures
        ({
            let before = settled_all(unsettled::<E, N>(records, notify), reports.drop_last());
            woken(before, reports.last().count) == (if reports.last().count > 0
                && settled_records(reports) == records {
                Some(notify)
            } else {
                None
            })
        }),
        settled_all(unsettled::<E, N>(records, notify), reports).error == first_error(reports),
{
    lemma_settled_all(records, notify, reports.drop_last());
    lemma_settled_all(records, notify, reports);
}

/// The word for a boolean property.
pub open spec fn bool_text(value: bool) -> Seq<char> {
    if value {
        "true"@
    } else {
        "false"@
    }
}

/// The properties of the producer.
pub open spec fn producer_properties(config: KafkaSinkConfig) -> Map<Seq<char>, Seq<char>> {
    librdkafka::overridden(
        librdkafka::no_properties()
            .insert("bootstrap.servers"@, config.brokers@)
            .insert("enable.idempotence"@, bool_text(config.enable_idempotence))
            .insert("acks"@, config.acks@)
            .insert("compression.type"@, config.compression_type@)
            .insert("linger.ms"@, text::decimal(config.producer_linger_ms as nat))
            .insert(
            "batch.num.messages"@,
            text::decimal(config.producer_batch_num_messages as nat),
        ).insert(
            "queue.buffering.max.messages"@,
            text::decimal(config.queue_buffering_max_messages as nat),
        ).insert(
            "queue.buffering.max.kbytes"@,
            text::decimal(config.queue_buffering_max_kbytes as nat),
        ).insert("message.timeout.ms"@, text::decimal(config.delivery_timeout_ms as nat)),
        config.client_config@,
    )
}

/// A Kafka sink: what its producer is created from, and how it writes.
pub struct KafkaSink {
    id: String,
    topic: String,
    enqueue_timeout_ms: u64,
    client: ClientConfig,
    batch: BatchSettings,
}

impl KafkaSink {
    /// The properties that the producer is created with.
    pub closed spec fn settings(self) -> Map<Seq<char>, Seq<char>> {
        librdkafka::properties(self.client)
    }

    /// Id, topic, enqueue timeout and batching.
    pub closed spec fn plan(self) -> (Seq<char>, Seq<char>, u64, BatchSettings) {
        (self.id@, self.topic@, self.enqueue_timeout_ms, self.batch)
    }

    pub fn new(id: &str, config: &KafkaSinkConfig) -> (sink: Self)
        ensures
            sink.settings() == producer_properties(*config),
            sink.plan() == (
                id@,
                config.topic@,
                config.delivery_timeout_ms,
                (BatchSettings {
                    max_events: config.batch_max_events,
                    max_bytes: config.batch_max_bytes,
                    linger_ms: config.batch_linger_ms,
                }),
            ),
    {
        let mut client = ClientConfig::new();
        set_property(&mut client, "bootstrap.servers", config.brokers.as_str());
        set_property(
            &mut client,
            "enable.idempotence",
            if config.enable_idempotence {
                "true"
            } else {
                "false"
            },
        );
        set_property(&mut client, "acks", config.acks.as_str());
        set_property(&mut client, "compression.type", config.compression_type.as_str());
        set_property(
            &mut client,
            "linger.ms",
            text::decimal_string(config.producer_linger_ms).as_str(),
        );
        set_property(
            &mut client,
            "batch.num.messages",
            text::decimal_string(config.producer_batch_num_messages).as_str(),
        );
        set_property(
            &mut client,
            "queue.buffering.max.messages",
            text::decimal_string(config.queue_buffering_max_messages).as_str(),
        );
        set_property(
            &mut client,
            "queue.buffering.max.kbytes",
            text::decimal_string(config.queue_buffering_max_kbytes).as_str(),
        );
        set_property(
            &mut client,
            "message.timeout.ms",
            text::decimal_string(config.delivery_timeout_ms).as_str(),
        );
        set_properties(&mut client, &config.client_config);
        KafkaSink {
            id: id.to_owned(),
            topic: config.topic.clone(),
            enqueue_timeout_ms: config.delivery_timeout_ms,
            client,
            batch: BatchSettings {
                max_events: config.batch_max_events,
                max_bytes: config.batch_max_bytes,
                linger_ms: config.batch_linger_ms,
            },
        }
    }

    pub fn name(&self) -> (name: &str)
        ensures
            name@ == self.plan().0,
    {
        self.id.as_str()
    }

    pub fn topic(&self) -> (topic: &str)
        ensures
            topic@ == self.plan().1,
    {
        self.topic.as_str()
    }

    pub fn enqueue_timeout_ms(&self) -> (timeout: u64)
        ensures
            timeout == self.plan().2,
    {
        self.enqueue_timeout_ms
    }

    pub fn batch_settings(&self) -> (batch: BatchSettings)
        ensures
            batch == self.plan().3,
    {
        self.batch
    }

    pub fn client(&self) -> (client: &ClientConfig)
        ensures
            librdkafka::properties(*client) == self.settings(),
    {
        &self.client
    }
}

/// One record to be produced.
#[derive(Debug)]
pub struct OutgoingRecord<'a> {
    pub topic: &'a str,
    pub key: Option<&'a [u8]>,
    pub payload: &'a [u8],
    pub timestamp: Option<i64>,
}

impl<'a> OutgoingRecord<'a> {
    /// The record carries `event` to `topic`.
    pub open spec fn carries(self, topic: Seq<char>, event: EventView) -> bool {
        &&& self.topic@ == topic
        &&& self.payload@ == event.payload
        &&& self.timestamp == event.timestamp_ms
        &&& match self.key {
            Some(key) => event.key == Some(key@),
            None => event.key is None,
        }
    }
}

/// What is consumed from Kafka is what is produced to it: key, payload and
/// timestamp pass through unchanged, whatever topic they go to.
pub proof fn a_record_passes_through_unchanged(
    taken: Record<'_>,
    component_id: Seq<char>,
    given: OutgoingRecord<'_>,
    topic: Seq<char>,
)
    requires
        given.carries(topic, taken.event(component_id)),
    ensures
        given.topic@ == topic,
        given.key is None <==> taken.key is None,
        taken.key matches Some(key) ==> given.key matches Some(same) && same@ == key@,
        taken.payload matches Some(payload) ==> given.payload@ == payload@,
        taken.payload is None ==> given.payload@.len() == 0,
        given.timestamp == taken.timestamp_ms,
{
}

/// The record that an event is written as: its own key, payload and timestamp.
pub fn outgoing_record<'a>(topic: &'a str, event: &'a Event) -> (record: OutgoingRecord<'a>)
    ensures
        record.carries(topic@, event@),
        record.topic@ == topic@,
        record.payload@ == event@.payload,
        record.timestamp == event@.timestamp_ms,
        match record.key {
            Some(key) => event@.key == Some(key@),
            None => event@.key is None,
        },
{
    let key: Option<&[u8]> = match &event.key {
        Some(key) => Some(key.as_ref()),
        None => None,
    };
    OutgoingRecord {
        topic,
        key,
        payload: event.payload.as_ref(),
        timestamp: event.timestamp_ms,
    }
}

proof fn lemma_all_events_at(batches: Seq<Arc<EventBatch>>, n: int, i: int)
    requires
        0 <= n < batches.len(),
        0 <= i < (*batches[n])@.len(),
    ensures
        event::all_events(batches.take(n)).len() + i < event::all_events(batches).len(),
        event::all_events(batches)[event::all_events(batches.take(n)).len() + i] == (*batches[n])@[i],
        event::all_events(batches.take(n + 1)).len() == event::all_events(batches.take(n)).len()
            + (*batches[n])@.len(),
{
    assert(batches.take(n + 1).drop_last() =~= batches.take(n));
    event::lemma_all_events_prefix(batches, n + 1, batches.len() as int);
    assert(batches.take(batches.len() as int) =~= batches);
    let p = event::all_events(batches.take(n)).len() + i;
    assert(event::all_events(batches.take(n + 1))[p] == (*batches[n])@[i]);
}

/// How the producer answered an offered record.
#[derive(Debug)]
pub enum Offered<E> {
    /// The record is queued.
    Queued,
    /// The producer's queue is full.
    QueueFull,
    /// The record was refused for another reason.
    Refused(E),
}

/// What to do next.
#[derive(Debug, Clone, Copy, PartialEq, Eq, Structural)]
pub enum Enqueue {
    /// Offer the current record.
    Offer,
    /// Wait, then offer the same record again.
    OfferAfter { backoff_ms: u64 },
    /// Every record is queued, or no more will be.
    Stop,
}

/// Why a write failed.
#[derive(Debug)]
pub enum WriteError<E> {
    /// The producer's queue stayed full for the whole timeout.
    QueueStayedFull { timeout_ms: u64 },
    /// A record was refused.
    Enqueue(E),
    /// A record was queued but not delivered.
    Delivery(E),
    /// The delivery reports were lost.
    TrackerDropped,
}

/// The decimal places of some milliseconds as a fraction of a second, without
/// trailing zeros.
pub open spec fn decimal_places(millis: nat) -> Seq<char> {
    if millis == 0 {
        Seq::empty()
    } else if millis % 100 == 0 {
        seq!['.', text::digit_char(millis / 100)]
    } else if millis % 10 == 0 {
        seq!['.', text::digit_char(millis / 100), text::digit_char(millis / 10 % 10)]
    } else {
        seq![
            '.',
            text::digit_char(millis / 100),
            text::digit_char(millis / 10 % 10),
            text::digit_char(millis % 10),
        ]
    }
}

/// A duration, in the largest unit that it fills: seconds or milliseconds.
pub open spec fn shown_millis(millis: u64) -> Seq<char> {
    if millis >= 1000 {
        text::decimal(millis as nat / 1000) + decimal_places(millis as nat % 1000) + "s"@
    } else if millis > 0 {
        text::decimal(millis as nat) + "ms"@
    } else {
        "0ns"@
    }
}

fn push_digit(out: &mut String, digit: u64)
    requires
        digit < 10,
    ensures
        final(out)@ == old(out)@.push(text::digit_char(digit as nat)),
{
    out.push((0x30u8 + digit as u8) as char);
}

/// Renders a duration the way `{:?}` prints it.
pub fn show_millis(millis: u64) -> (shown: String)
    ensures
        shown@ == shown_millis(millis),
{
    if millis == 0 {
        return "0ns".to_owned();
    }
    let mut shown = String::new();
    if millis < 1000 {
        text::push_decimal(&mut shown, millis);
        shown.append("ms");
        assert(shown@ =~= shown_millis(millis));
        return shown;
    }
    text::push_decimal(&mut shown, millis / 1000);
    let rest: u64 = millis % 1000;
    if rest > 0 {
        shown.push('.');
        push_digit(&mut shown, rest / 100);
        if rest % 100 > 0 {
            push_digit(&mut shown, rest / 10 % 10);
        }
        if rest % 10 > 0 {
            push_digit(&mut shown, rest % 10);
        }
    }
    assert(shown@ =~= text::decimal(millis as nat / 1000) + decimal_places(millis as nat % 1000));
    shown.append("s");
    shown
}

impl<E> WriteError<E> {
    /// What the failure is reported as. A refused or undelivered record is
    /// reported in front of the producer's own words.
    pub fn message(&self) -> (message: String)
        ensures
            message@ == match self {
                WriteError::QueueStayedFull { timeout_ms } => "librdkafka queue stayed full for "@
                    + shown_millis(*timeout_ms)
                    + "; raise queue_buffering_max_messages/kbytes or lower batch_max_events"@,
                WriteError::Enqueue(_) => "cannot enqueue Kafka record"@,
                WriteError::Delivery(_) => "Kafka delivery failed"@,
                WriteError::TrackerDropped => "Kafka delivery tracker dropped"@,
            },
    {
        match self {
            WriteError::QueueStayedFull { timeout_ms } => {
                let mut message = "librdkafka queue stayed full for ".to_owned();
                message.append(show_millis(*timeout_ms).as_str());
                message.append(
                    "; raise queue_buffering_max_messages/kbytes or lower batch_max_events",
                );
                message
            },
            WriteError::Enqueue(_) => "cannot enqueue Kafka record".to_owned(),
            WriteError::Delivery(_) => "Kafka delivery failed".to_owned(),
            WriteError::TrackerDropped => "Kafka delivery tracker dropped".to_owned(),
        }
    }
}

/// When a write that starts at `now_ns` stops re-offering a record: once its
/// timeout has passed, or never where the clock cannot tell.
pub open spec fn deadline_after(now_ns: u64, timeout_ms: u64) -> u64 {
    if now_ns + timeout_ms * 1000000 > u64::MAX {
        u64::MAX
    } else {
        (now_ns + timeout_ms * 1000000) as u64
    }
}

/// When a write that starts at `now_ns` stops re-offering a record.
pub fn enqueue_deadline(now_ns: u64, timeout_ms: u64) -> (deadline: u64)
    ensures
        deadline == deadline_after(now_ns, timeout_ms),
        now_ns + timeout_ms * 1000000 <= u64::MAX ==> deadline == now_ns + timeout_ms * 1000000,
        now_ns + timeout_ms * 1000000 > u64::MAX ==> deadline == u64::MAX,
{
    if timeout_ms > (u64::MAX - now_ns) / 1000000 {
        u64::MAX
    } else {
        now_ns + timeout_ms * 1000000
    }
}

/// One write under way: which record comes next, and how many are queued.
pub struct KafkaWrite<'a, E> {
    batches: &'a [Arc<EventBatch>],
    batch: usize,
    event: usize,
    total: usize,
    enqueued: usize,
    deadline_ns: u64,
    timeout_ms: u64,
    failure: Option<WriteError<E>>,
}

/// What a [`KafkaWrite`] holds.
pub ghost struct WriteView<E> {
    /// The events to write, in order.
    pub events: Seq<EventView>,
    /// How many of them are queued.
    pub enqueued: nat,
    /// When to stop re-offering a record.
    pub deadline_ns: u64,
    pub timeout_ms: u64,
    pub failure: Option<WriteError<E>>,
}

impl<E> WriteView<E> {
    /// No record will be offered any more.
    pub open spec fn stopped(self) -> bool {
        self.failure is Some || self.enqueued == self.events.len()
    }

    /// The write after the current record was offered.
    pub open spec fn after(self, offered: Offered<E>, now_ns: u64) -> WriteView<E> {
        match offered {
            Offered::Queued => WriteView { enqueued: self.enqueued + 1, ..self },
            Offered::QueueFull => if now_ns >= self.deadline_ns {
                WriteView {
                    failure: Some(WriteError::QueueStayedFull { timeout_ms: self.timeout_ms }),
                    ..self
                }
            } else {
                self
            },
            Offered::Refused(error) => WriteView {
                failure: Some(WriteError::Enqueue(error)),
                ..self
            },
        }
    }

    /// The records that will never produce a delivery report.
    pub open spec fn abandoned(self) -> nat {
        if self.failure is Some {
            (self.events.len() - self.enqueued) as nat
        } else {
            0
        }
    }

    /// How the write ends.
    pub open spec fn conclusion(self, reported: bool, delivery_error: Option<E>) -> Result<
        WriteOutcome,
        WriteError<E>,
    > {
        if !reported {
            Err(WriteError::TrackerDropped)
        } else {
            match self.failure {
                Some(failure) => Err(failure),
                None => match delivery_error {
                    Some(error) => Err(WriteError::Delivery(error)),
                    None => Ok(WriteOutcome { written: self.events.len() as u64, dropped: 0 }),
                },
            }
        }
    }
}

/// Once no record is offered any more, every record of the write has a report
/// coming: those queued get one from the producer, the others are settled as
/// abandoned. The write cannot wait forever.
pub proof fn every_record_is_settled_in_the_end<E>(v: WriteView<E>)
    requires
        v.enqueued <= v.events.len(),
        v.stopped(),
    ensures
        v.enqueued + v.abandoned() == v.events.len(),
{
}

/// A write is reported as successful only if every event was queued and no
/// delivery failed, and it then counts every event.
pub proof fn success_means_every_event_was_delivered<E>(
    v: WriteView<E>,
    reported: bool,
    delivery_error: Option<E>,
)
    requires
        v.enqueued <= v.events.len(),
        v.stopped(),
        v.conclusion(reported, delivery_error) is Ok,
    ensures
        v.enqueued == v.events.len(),
        delivery_error is None,
        reported,
{
}

impl<'a, E> View for KafkaWrite<'a, E> {
    type V = WriteView<E>;

    closed spec fn view(&self) -> WriteView<E> {
        WriteView {
            events: event::all_events(self.batches@),
            enqueued: self.enqueued as nat,
            deadline_ns: self.deadline_ns,
            timeout_ms: self.timeout_ms,
            failure: self.failure,
        }
    }
}

impl<'a, E> KafkaWrite<'a, E> {
    /// The position is that of the first event not queued.
    pub closed spec fn wf(self) -> bool {
        &&& self.total == event::all_events(self.batches@).len()
        &&& self.batch <= self.batches@.len()
        &&& self.enqueued == event::all_events(self.batches@.take(self.batch as int)).len() + self.event
        &&& self.batch < self.batches@.len() ==> self.event < (*self.batches@[self.batch as int])@.len()
        &&& self.batch == self.batches@.len() ==> self.event == 0
        &&& self.enqueued <= self.total
    }

    /// Starts writing at `now_ns`; there is nothing to do where the batches hold no
    /// event.
    pub fn start(batches: &'a [Arc<EventBatch>], timeout_ms: u64, now_ns: u64) -> (write: Option<
        Self,
    >)
        requires
            event::all_events(batches@).len() <= usize::MAX,
        ensures
            match write {
                Some(write) => {
                    &&& write.wf()
                    &&& event::all_events(batches@).len() > 0
                    &&& write@ == (WriteView::<E> {
                        events: event::all_events(batches@),
                        enqueued: 0,
                        deadline_ns: deadline_after(now_ns, timeout_ms),
                        timeout_ms,
                        failure: None,
                    })
                },
                None => event::all_events(batches@).len() == 0,
            },
    {
        let mut total: usize = 0;
        let mut i: usize = 0;
        while i < batches.len()
            invariant
                i <= batches@.len(),
                total == event::all_events(batches@.take(i as int)).len(),
                event::all_events(batches@).len() <= usize::MAX,
            decreases batches@.len() - i,
        {
            proof {
                assert(batches@.take(i + 1).drop_last() =~= batches@.take(i as int));
                event::lemma_all_events_prefix(batches@, i + 1, batches@.len() as int);
                assert(batches@.take(batches@.len() as int) =~= batches@);
            }
            total = total + batches[i].len();
            i += 1;
        }
        assert(batches@.take(i as int) =~= batches@);
        if total == 0 {
            return None;
        }
        let first = Self::skip_empty(batches, 0);
        proof {
            assert(batches@.take(0) =~= Seq::<Arc<EventBatch>>::empty());
            if first == batches@.len() {
                assert(batches@.take(batches@.len() as int) =~= batches@);
            }
        }
        Some(
            KafkaWrite {
                batches,
                batch: first,
                event: 0,
                total,
                enqueued: 0,
                deadline_ns: enqueue_deadline(now_ns, timeout_ms),
                timeout_ms,
                failure: None,
            },
        )
    }

    /// The first batch from `from` on that holds an event.
    fn skip_empty(batches: &[Arc<EventBatch>], from: usize) -> (next: usize)
        requires
            from <= batches@.len(),
        ensures
            from <= next <= batches@.len(),
            event::all_events(batches@.take(next as int)).len() == event::all_events(
                batches@.take(from as int),
            ).len(),
            next < batches@.len() ==> (*batches@[next as int])@.len() > 0,
    {
        let mut next: usize = from;
        while next < batches.len() && batches[next].is_empty()
            invariant
                from <= next <= batches@.len(),
                event::all_events(batches@.take(next as int)).len() == event::all_events(
                    batches@.take(from as int),
                ).len(),
            decreases batches@.len() - next,
        {
            assert(batches@.take(next + 1).drop_last() =~= batches@.take(next as int));
            next += 1;
        }
        next
    }

    /// How many records the write has.
    pub fn total(&self) -> (total: usize)
        requires
            self.wf(),
        ensures
            total == self@.events.len(),
    {
        self.total
    }

    /// The event to offer.
    pub fn current(&self) -> (event: &Event)
        requires
            self.wf(),
            self@.enqueued < self@.events.len(),
        ensures
            event@ == self@.events[self@.enqueued as int],
    {
        proof {
            if self.batch == self.batches@.len() {
                assert(self.batches@.take(self.batch as int) =~= self.batches@);
            } else {
                lemma_all_events_at(self.batches@, self.batch as int, self.event as int);
            }
        }
        let events = self.batches[self.batch].events();
        assert(event::event_views(events@)[self.event as int] == events@[self.event as int]@);
        &events[self.event]
    }

    /// Takes the producer's answer to the current record.
    pub fn on_offered(&mut self, offered: Offered<E>, now_ns: u64) -> (next: Enqueue)
        requires
            old(self).wf(),
            !old(self)@.stopped(),
        ensures
            final(self).wf(),
            final(self)@ == old(self)@.after(offered, now_ns),
            final(self)@.events == old(self)@.events,
            final(self)@.deadline_ns == old(self)@.deadline_ns,
            final(self)@.timeout_ms == old(self)@.timeout_ms,
            match offered {
                Offered::Queued => {
                    &&& final(self)@.enqueued == old(self)@.enqueued + 1
                    &&& final(self)@.failure is None
                    &&& next == (if final(self)@.enqueued == old(self)@.events.len() {
                        Enqueue::Stop
                    } else {
                        Enqueue::Offer
                    })
                },
                Offered::QueueFull => {
                    &&& final(self)@.enqueued == old(self)@.enqueued
                    &&& now_ns < old(self)@.deadline_ns ==> final(self)@.failure is None && next
                        == (Enqueue::OfferAfter { backoff_ms: 2 })
                    &&& now_ns >= old(self)@.deadline_ns ==> next == Enqueue::Stop && final(self)@.failure == Some(
                        WriteError::<E>::QueueStayedFull { timeout_ms: old(self)@.timeout_ms },
                    )
                },
                Offered::Refused(error) => {
                    &&& final(self)@.enqueued == old(self)@.enqueued
                    &&& next == Enqueue::Stop
                    &&& final(self)@.failure == Some(WriteError::<E>::Enqueue(error))
                },
            },
            next == (if final(self)@.stopped() {
                Enqueue::Stop
            } else if offered is QueueFull {
                Enqueue::OfferAfter { backoff_ms: QUEUE_FULL_BACKOFF_MS }
            } else {
                Enqueue::Offer
            }),
    {
        match offered {
            Offered::Queued => {
                proof {
                    if self.batch == self.batches@.len() {
                        assert(self.batches@.take(self.batch as int) =~= self.batches@);
                    } else {
                        lemma_all_events_at(self.batches@, self.batch as int, self.event as int);
                    }
                }
                self.enqueued = self.enqueued + 1;
                if self.event + 1 < self.batches[self.batch].len() {
                    self.event = self.event + 1;
                } else {
                    self.batch = Self::skip_empty(self.batches, self.batch + 1);
                    self.event = 0;
                }
                if self.enqueued == self.total {
                    Enqueue::Stop
                } else {
                    Enqueue::Offer
                }
            },
            Offered::QueueFull => if now_ns >= self.deadline_ns {
                self.failure = Some(WriteError::QueueStayedFull { timeout_ms: self.timeout_ms });
                Enqueue::Stop
            } else {
                Enqueue::OfferAfter { backoff_ms: QUEUE_FULL_BACKOFF_MS }
            },
            Offered::Refused(error) => {
                self.failure = Some(WriteError::Enqueue(error));
                Enqueue::Stop
            },
        }
    }

    /// The records that were never queued. They will never produce a delivery
    /// report, so they are settled at once or the write would wait forever.
    pub fn abandoned(&self) -> (abandoned: usize)
        requires
            self.wf(),
        ensures
            abandoned == self@.abandoned(),
            self@.failure is Some ==> abandoned == self@.events.len() - self@.enqueued,
            self@.failure is None ==> abandoned == 0,
    {
        if self.failure.is_some() {
            self.total - self.enqueued
        } else {
            0
        }
    }

    /// Ends the write. `reported` says whether the delivery reports came in, and
    /// `delivery_error` which of them failed first.
    pub fn conclude(self, reported: bool, delivery_error: Option<E>) -> (outcome: Result<
        WriteOutcome,
        WriteError<E>,
    >)
        requires
            self.wf(),
            self@.stopped(),
        ensures
            outcome == self@.conclusion(reported, delivery_error),
            !reported ==> outcome is Err && outcome->Err_0 is TrackerDropped,
            reported ==> match self@.failure {
                Some(failure) => outcome is Err && outcome->Err_0 == failure,
                None => match delivery_error {
                    Some(error) => outcome is Err && outcome->Err_0 == WriteError::<E>::Delivery(
                        error,
                    ),
                    None => outcome matches Ok(outcome) && outcome.written == self@.events.len()
                        && outcome.dropped == 0,
                },
            },
    {
        if !reported {
            return Err(WriteError::TrackerDropped);
        }
        match self.failure {
            Some(failure) => Err(failure),
            None => match delivery_error {
                Some(error) => Err(WriteError::Delivery(error)),
                None => Ok(WriteOutcome::written(self.total as u64)),
            },
        }
    }
}

/// Every property of the producer has the value that the configuration gives it,
/// numbers in decimal; what `client_config` names it decides, and nothing else is
/// set.
pub proof fn the_producer_is_set_up_as_configured(config: KafkaSinkConfig, key: Seq<char>)
    ensures
        config.client_config@.contains_key(key) ==> producer_properties(config).contains_key(key) && producer_properties(config)[key]
            == config.client_config@[key]@,
        !config.client_config@.contains_key("bootstrap.servers"@) ==> producer_properties(config).contains_key("bootstrap.servers"@) && producer_properties(config)["bootstrap.servers"@] == config.brokers@,
        !config.client_config@.contains_key("enable.idempotence"@) ==> producer_properties(config).contains_key("enable.idempotence"@) && producer_properties(config)["enable.idempotence"@] == (if config.enable_idempotence { "true"@ } else { "false"@ }),
        !config.client_config@.contains_key("acks"@) ==> producer_properties(config).contains_key("acks"@) && producer_properties(config)["acks"@] == config.acks@,
        !config.client_config@.contains_key("compression.type"@) ==> producer_properties(config).contains_key("compression.type"@) && producer_properties(config)["compression.type"@] == config.compression_type@,
        !config.client_config@.contains_key("linger.ms"@) ==> producer_properties(config).contains_key("linger.ms"@) && text::read_decimal(producer_properties(config)["linger.ms"@]) == Some(config.producer_linger_ms as nat),
        !config.client_config@.contains_key("batch.num.messages"@) ==> producer_properties(config).contains_key("batch.num.messages"@) && text::read_decimal(producer_properties(config)["batch.num.messages"@]) == Some(config.producer_batch_num_messages as nat),
        !config.client_config@.contains_key("queue.buffering.max.messages"@) ==> producer_properties(config).contains_key("queue.buffering.max.messages"@) && text::read_decimal(producer_properties(config)["queue.buffering.max.messages"@]) == Some(config.queue_buffering_max_messages as nat),
        !config.client_config@.contains_key("queue.buffering.max.kbytes"@) ==> producer_properties(config).contains_key("queue.buffering.max.kbytes"@) && text::read_decimal(producer_properties(config)["queue.buffering.max.kbytes"@]) == Some(config.queue_buffering_max_kbytes as nat),
        !config.client_config@.contains_key("message.timeout.ms"@) ==> producer_properties(config).contains_key("message.timeout.ms"@) && text::read_decimal(producer_properties(config)["message.timeout.ms"@]) == Some(config.delivery_timeout_ms as nat),
        producer_properties(config).contains_key(key) ==> config.client_config@.contains_key(key) || key == "bootstrap.servers"@ || key == "enable.idempotence"@ || key == "acks"@ || key == "compression.type"@ || key == "linger.ms"@ || key == "batch.num.messages"@ || key == "queue.buffering.max.messages"@ || key == "queue.buffering.max.kbytes"@ || key == "message.timeout.ms"@,
{
    reveal_strlit("bootstrap.servers");
    reveal_strlit("enable.idempotence");
    reveal_strlit("acks");
    reveal_strlit("compression.type");
    reveal_strlit("linger.ms");
    reveal_strlit("batch.num.messages");
    reveal_strlit("queue.buffering.max.messages");
    reveal_strlit("queue.buffering.max.kbytes");
    reveal_strlit("message.timeout.ms");
    assert("bootstrap.servers"@.len() == 17);
    assert("enable.idempotence"@.len() == 18);
    assert("acks"@.len() == 4);
    assert("compression.type"@.len() == 16);
    assert("linger.ms"@.len() == 9);
    assert("batch.num.messages"@.len() == 18);
    assert("queue.buffering.max.messages"@.len() == 28);
    assert("queue.buffering.max.kbytes"@.len() == 26);
    assert("message.timeout.ms"@.len() == 18);
    assert("enable.idempotence"@[0] != "batch.num.messages"@[0]);
    assert("enable.idempotence"@[0] != "message.timeout.ms"@[0]);
    assert("batch.num.messages"@[0] != "message.timeout.ms"@[0]);
    text::a_decimal_reads_back_as_the_number(config.producer_linger_ms as nat);
    text::a_decimal_reads_back_as_the_number(config.producer_batch_num_messages as nat);
    text::a_decimal_reads_back_as_the_number(config.queue_buffering_max_messages as nat);
    text::a_decimal_reads_back_as_the_number(config.queue_buffering_max_kbytes as nat);
    text::a_decimal_reads_back_as_the_number(config.delivery_timeout_ms as nat);
    let named = producer_properties(config);
    assert(named.dom().contains(key) == named.contains_key(key));
}

/// The milliseconds that a fraction of a second stands for: up to three digits
/// behind a point.
pub open spec fn read_fraction(places: Seq<char>) -> Option<nat> {
    if places.len() == 0 {
        Some(0)
    } else if places[0] != '.' || places.len() == 1 || places.len() > 4 {
        None
    } else {
        match text::read_decimal(places.skip(1)) {
            Some(digits) => Some(
                if places.len() == 2 {
                    digits * 100
                } else if places.len() == 3 {
                    digits * 10
                } else {
                    digits
                },
            ),
            None => None,
        }
    }
}

proof fn lemma_decimal_places(millis: nat)
    requires
        millis < 1000,
    ensures
        read_fraction(decimal_places(millis)) == Some(millis),
        decimal_places(millis).len() > 0 ==> decimal_places(millis).last() != '0',
{
    let places = decimal_places(millis);
    if millis > 0 {
        let digits = places.skip(1);
        let a = millis / 100;
        let b = millis / 10 % 10;
        let c = millis % 10;
        assert(text::digit_value(text::digit_char(a)) == Some(a));
        assert(text::digit_value(text::digit_char(b)) == Some(b));
        assert(text::digit_value(text::digit_char(c)) == Some(c));
        reveal_with_fuel(text::read_decimal, 4);
        if millis % 100 == 0 {
            assert(digits =~= seq![text::digit_char(a)]);
        } else if millis % 10 == 0 {
            assert(digits =~= seq![text::digit_char(a), text::digit_char(b)]);
            assert(digits.drop_last() =~= seq![text::digit_char(a)]);
        } else {
            assert(digits =~= seq![
                text::digit_char(a),
                text::digit_char(b),
                text::digit_char(c),
            ]);
            assert(digits.drop_last() =~= seq![text::digit_char(a), text::digit_char(b)]);
            assert(digits.drop_last().drop_last() =~= seq![text::digit_char(a)]);
        }
    }
}

/// A duration that is shown reads back as it was: whole milliseconds below a
/// second, and from there on whole seconds and a fraction that ends in no zero.
pub proof fn a_shown_duration_reads_back(millis: u64) -> (parts: (Seq<char>, Seq<char>))
    ensures
        millis == 0 ==> shown_millis(millis) == "0ns"@,
        0 < millis < 1000 ==> shown_millis(millis) == parts.0 + "ms"@ && text::read_decimal(parts.0)
            == Some(millis as nat),
        millis >= 1000 ==> {
            &&& shown_millis(millis) == parts.0 + parts.1 + "s"@
            &&& text::read_decimal(parts.0) is Some
            &&& read_fraction(parts.1) is Some
            &&& text::read_decimal(parts.0).unwrap() * 1000 + read_fraction(parts.1).unwrap()
                == millis
            &&& read_fraction(parts.1).unwrap() < 1000
            &&& parts.1.len() > 0 ==> parts.1.last() != '0'
        },
{
    text::a_decimal_reads_back_as_the_number(millis as nat);
    text::a_decimal_reads_back_as_the_number(millis as nat / 1000);
    lemma_decimal_places(millis as nat % 1000);
    if millis < 1000 {
        (text::decimal(millis as nat), Seq::empty())
    } else {
        (text::decimal(millis as nat / 1000), decimal_places(millis as nat % 1000))
    }
}

/// A write gives up re-offering a record exactly one timeout after its start, or
/// never where the clock cannot tell.
pub proof fn the_deadline_is_one_timeout_away(now_ns: u64, timeout_ms: u64)
    ensures
        now_ns + timeout_ms * 1000000 <= u64::MAX ==> deadline_after(now_ns, timeout_ms) - now_ns
            == timeout_ms * 1000000,
        now_ns + timeout_ms * 1000000 > u64::MAX ==> deadline_after(now_ns, timeout_ms) == u64::MAX,
{
}

/// A record that is queued moves the write on by one. A full queue changes nothing
/// before the deadline, and fails the write from then on; a refusal fails it at
/// once. No other answer moves or fails it.
pub proof fn an_offered_record_moves_the_write_on_or_fails_it<E>(
    v: WriteView<E>,
    error: E,
    now_ns: u64,
)
    requires
        v.failure is None,
        v.enqueued < v.events.len(),
    ensures
        ({
            let queued = v.after(Offered::Queued, now_ns);
            &&& queued.enqueued == v.enqueued + 1
            &&& queued.failure is None
            &&& queued == WriteView { enqueued: queued.enqueued, ..v }
            &&& queued.stopped() <==> queued.enqueued == v.events.len()
        }),
        now_ns < v.deadline_ns ==> v.after(Offered::QueueFull, now_ns) == v && !v.after(
            Offered::QueueFull,
            now_ns,
        ).stopped(),
        now_ns >= v.deadline_ns ==> ({
            let full = v.after(Offered::QueueFull, now_ns);
            &&& full.failure == Some(WriteError::<E>::QueueStayedFull { timeout_ms: v.timeout_ms })
            &&& full == WriteView { failure: full.failure, ..v }
            &&& full.stopped()
        }),
        ({
            let refused = v.after(Offered::Refused(error), now_ns);
            &&& refused.failure == Some(WriteError::<E>::Enqueue(error))
            &&& refused == WriteView { failure: refused.failure, ..v }
            &&& refused.stopped()
        }),
{
}

/// A write succeeds exactly when its reports came in, nothing failed while it was
/// queued and nothing while it was delivered; it then counts every event. Lost
/// reports come first among the failures, then queueing, then delivery.
pub proof fn a_write_succeeds_only_if_nothing_failed<E>(
    v: WriteView<E>,
    reported: bool,
    delivery_error: Option<E>,
)
    ensures
        v.conclusion(reported, delivery_error) is Ok <==> reported && v.failure is None
            && delivery_error is None,
        v.conclusion(reported, delivery_error) matches Ok(outcome) ==> outcome.written
            == v.events.len() as u64 && outcome.dropped == 0,
        !reported ==> v.conclusion(reported, delivery_error) == Err::<WriteOutcome, WriteError<E>>(
            WriteError::TrackerDropped,
        ),
        reported && v.failure is Some ==> v.conclusion(reported, delivery_error) == Err::<
            WriteOutcome,
            WriteError<E>,
        >(v.failure.unwrap()),
        reported && v.failure is None && delivery_error is Some ==> v.conclusion(
            reported,
            delivery_error,
        ) == Err::<WriteOutcome, WriteError<E>>(WriteError::Delivery(delivery_error.unwrap())),
{
}

/// Only a write that failed while queueing gives records up: all that it had not
/// queued.
pub proof fn only_a_failed_write_abandons_records<E>(v: WriteView<E>)
    requires
        v.enqueued <= v.events.len(),
    ensures
        v.failure is None ==> v.abandoned() == 0,
        v.failure is Some ==> v.abandoned() + v.enqueued == v.events.len(),
{
}

/// One report takes its records off those outstanding, and keeps the first error;
/// the report that settles the last of them wakes whoever waits.
pub proof fn a_report_settles_its_records<E, N>(
    tracker: BatchTracker<E, N>,
    count: usize,
    error: Option<E>,
)
    requires
        count <= tracker.remaining,
    ensures
        ({
            let after = settled(tracker, count, error);
            &&& after.remaining == tracker.remaining - count
            &&& count == 0 ==> after == tracker && woken(tracker, count) is None
            &&& count > 0 ==> (after.failed <==> tracker.failed || error is Some)
            &&& tracker.failed || error is None ==> after.error == tracker.error
            &&& count > 0 && !tracker.failed && error is Some ==> after.error == error
            &&& 0 < count < tracker.remaining ==> woken(tracker, count) is None && after.notify
                == tracker.notify
            &&& 0 < count == tracker.remaining ==> woken(tracker, count) == tracker.notify
                && after.notify is None
        }),
{
}

} // verus!
