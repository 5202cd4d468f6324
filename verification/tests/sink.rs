//! Retries, coalescing, the Kafka write and the ClickHouse rows.

use std::sync::Arc;

use rdkafka::error::{KafkaError, RDKafkaErrorCode};
use rustper::config::{
    ClickhouseSchema, ClickhouseSinkConfig, DeliverySettings, KafkaSinkConfig,
};
use rustper::event::{Event, EventBatch, SourceMetadata};
use rustper::idmap::IdMap;
use rustper::metrics::SinkMetrics;
use rustper::sink::clickhouse::json::{MetadataColumns, Rejection};
use rustper::sink::clickhouse::{escape_identifier, event_outcome, event_rows, json_rows, ClickhouseSink};
use rustper::sink::coalescing::{SinkLoop, SinkPhase};
use rustper::sink::kafka::{
    enqueue_deadline, outgoing_record, show_millis, BatchTracker, Enqueue, KafkaSink, KafkaWrite, Offered, WriteError,
};
use rustper::sink::{finish_write, Attempted, BatchSettings, Retries, WriteOutcome};

fn settings(max_attempts: u32) -> DeliverySettings {
    DeliverySettings {
        max_concurrent_writes: 1,
        retry_max_attempts: max_attempts,
        retry_initial_backoff_ms: 1,
        retry_max_backoff_ms: 2,
    }
}

fn event(payload: &'static str, offset: i64) -> Event {
    Event {
        key: None,
        payload: payload.into(),
        timestamp_ms: None,
        source: SourceMetadata {
            component_id: "s".into(),
            topic: "t".into(),
            partition: 0,
            offset,
        },
    }
}

fn batch() -> Vec<Arc<EventBatch>> {
    vec![Arc::new(EventBatch::new(vec![event("x", 0)]))]
}

/// Fails the first writes, then counts events.
struct FlakySink {
    attempts: usize,
    fail_until: usize,
}

impl FlakySink {
    fn write_batches(&mut self, batches: &[Arc<EventBatch>]) -> Result<WriteOutcome, String> {
        self.attempts += 1;
        if self.attempts <= self.fail_until {
            return Err(format!("transient failure {}", self.attempts));
        }
        Ok(WriteOutcome::written(batches.iter().map(|b| b.len() as u64).sum()))
    }
}

fn write_with_retry(
    sink: &mut FlakySink,
    batches: &[Arc<EventBatch>],
    settings: DeliverySettings,
    counters: &mut SinkMetrics,
) -> Result<WriteOutcome, String> {
    let mut retries = Retries::new(&settings);
    loop {
        match retries.on_attempt(sink.write_batches(batches), counters) {
            Attempted::Done(outcome) => return Ok(outcome),
            Attempted::Retry { .. } => {}
            Attempted::GiveUp(error) => return Err(error),
        }
    }
}

#[test]
fn transient_failures_are_retried() {
    let mut sink = FlakySink { attempts: 0, fail_until: 2 };
    let mut counters = SinkMetrics::default();
    let outcome = write_with_retry(&mut sink, &batch(), settings(5), &mut counters).unwrap();
    assert_eq!(sink.attempts, 3);
    assert_eq!(outcome, WriteOutcome::written(1));
    assert_eq!(counters.retries, 2, "each retried attempt is counted");
    assert_eq!(counters.write_errors, 0);
}

#[test]
fn exhausted_retries_surface_the_error() {
    let mut sink = FlakySink { attempts: 0, fail_until: usize::MAX };
    let mut counters = SinkMetrics::default();
    let error = write_with_retry(&mut sink, &batch(), settings(3), &mut counters).unwrap_err();
    assert_eq!(sink.attempts, 3);
    assert!(error.to_string().contains("transient failure 3"));
    assert_eq!(counters.retries, 2);
    assert_eq!(
        counters.write_errors, 1,
        "the final failure is counted once, not once per attempt",
    );
}

#[test]
fn the_backoff_doubles_up_to_its_maximum() {
    let mut counters = SinkMetrics::default();
    let mut retries = Retries::new(&DeliverySettings {
        max_concurrent_writes: 1,
        retry_max_attempts: 7,
        retry_initial_backoff_ms: 100,
        retry_max_backoff_ms: 1_000,
    });
    let mut waits = Vec::new();
    while let Attempted::Retry { backoff_ms } = retries.on_attempt(Err("down"), &mut counters) {
        waits.push(backoff_ms);
    }
    assert_eq!(waits, vec![100, 200, 400, 800, 1_000, 1_000]);
    assert_eq!(retries.attempt(), 7);
    assert_eq!((counters.retries, counters.write_errors), (6, 1));
}

#[test]
fn a_finished_write_is_folded_into_the_counters() {
    let mut counters = SinkMetrics::default();
    let outcome = WriteOutcome { written: 6, dropped: 2 };
    assert_eq!(finish_write(Ok::<_, ()>(outcome), &mut counters), (true, Ok(())));
    assert_eq!(finish_write(Err("down"), &mut counters), (false, Err("down")));
    assert_eq!(counters.events_out, 6);
    assert_eq!(counters.events_dropped, 2);
    assert_eq!(counters.batches_written, 1);
    assert_eq!(WriteOutcome::default(), WriteOutcome { written: 0, dropped: 0 });
}

#[test]
fn a_write_completes_once_every_record_is_settled() {
    let mut tracker: BatchTracker<KafkaError, ()> = BatchTracker::new(3, ());
    assert!(tracker.settle(1, None).is_none());
    assert!(tracker.settle(1, None).is_none());

    assert!(tracker.settle(1, None).is_some());
    assert!(tracker.take_error().is_none());
}

#[test]
fn the_first_delivery_error_is_reported() {
    let mut tracker: BatchTracker<KafkaError, ()> = BatchTracker::new(3, ());
    let first = KafkaError::MessageProduction(RDKafkaErrorCode::MessageTimedOut);
    let second = KafkaError::MessageProduction(RDKafkaErrorCode::QueueFull);
    assert!(tracker.settle(1, Some(first)).is_none());
    assert!(tracker.settle(1, Some(second)).is_none());
    assert!(tracker.settle(1, None).is_some());
    let error = tracker.take_error().expect("an error was recorded");
    assert!(error.to_string().contains("Message timed out"), "got {error}");
}

#[test]
fn abandoned_records_still_release_the_write() {
    let mut tracker: BatchTracker<KafkaError, ()> = BatchTracker::new(10, ());
    assert!(tracker.settle(4, None).is_none());
    // Six records were never enqueued: settling them must wake the write
    // instead of leaving it parked forever.
    assert!(tracker.settle(6, None).is_some());
}

#[test]
fn settling_nothing_wakes_nobody() {
    let mut tracker: BatchTracker<&str, &str> = BatchTracker::new(1, "waiter");
    assert_eq!(tracker.settle(0, Some("ignored")), None);
    assert_eq!(tracker.settle(1, None), Some("waiter"));
    assert_eq!(tracker.settle(0, Some("ignored")), None);
    assert_eq!(tracker.take_error(), None);
}

#[test]
fn a_deadline_beyond_the_clock_never_comes() {
    assert_eq!(enqueue_deadline(0, 0), 0);
    assert_eq!(enqueue_deadline(5, 18_446_744_073_709), 18_446_744_073_709_000_005);
    assert_eq!(enqueue_deadline(551_615, 18_446_744_073_709), u64::MAX);
    assert_eq!(enqueue_deadline(551_616, 18_446_744_073_709), u64::MAX);
    assert_eq!(enqueue_deadline(1, u64::MAX), u64::MAX);
}

fn kafka_config() -> KafkaSinkConfig {
    KafkaSinkConfig {
        inputs: vec!["in".to_owned()],
        brokers: "broker:9092".to_owned(),
        topic: "output".to_owned(),
        delivery_timeout_ms: 30_000,
        buffer_capacity: 32,
        batch_max_events: 10,
        batch_max_bytes: 20,
        batch_linger_ms: 7,
        max_concurrent_writes: 1,
        retry_max_attempts: 5,
        retry_initial_backoff_ms: 100,
        retry_max_backoff_ms: 5_000,
        acks: "all".to_owned(),
        enable_idempotence: true,
        compression_type: "lz4".to_owned(),
        producer_linger_ms: 5,
        producer_batch_num_messages: 10_000,
        queue_buffering_max_messages: 100_000,
        queue_buffering_max_kbytes: 1_048_576,
        client_config: IdMap::new(),
    }
}

#[test]
fn the_producer_gets_every_configured_property() {
    let sink = KafkaSink::new("out", &kafka_config());
    assert_eq!(sink.name(), "out");
    assert_eq!(sink.topic(), "output");
    assert_eq!(sink.enqueue_timeout_ms(), 30_000);
    assert_eq!(
        sink.batch_settings(),
        BatchSettings { max_events: 10, max_bytes: 20, linger_ms: 7 }
    );
    let client = sink.client();
    assert_eq!(client.get("bootstrap.servers"), Some("broker:9092"));
    assert_eq!(client.get("enable.idempotence"), Some("true"));
    assert_eq!(client.get("acks"), Some("all"));
    assert_eq!(client.get("compression.type"), Some("lz4"));
    assert_eq!(client.get("linger.ms"), Some("5"));
    assert_eq!(client.get("batch.num.messages"), Some("10000"));
    assert_eq!(client.get("queue.buffering.max.messages"), Some("100000"));
    assert_eq!(client.get("queue.buffering.max.kbytes"), Some("1048576"));
    assert_eq!(client.get("message.timeout.ms"), Some("30000"));
    assert_eq!(client.config_map().len(), 9);

    let mut overrides = IdMap::new();
    overrides.insert("acks".to_owned(), "1".to_owned());
    let sink = KafkaSink::new(
        "out",
        &KafkaSinkConfig { enable_idempotence: false, client_config: overrides, ..kafka_config() },
    );
    assert_eq!(sink.client().get("acks"), Some("1"));
    assert_eq!(sink.client().get("enable.idempotence"), Some("false"));
}

fn two_batches() -> Vec<Arc<EventBatch>> {
    vec![
        Arc::new(EventBatch::new(Vec::new())),
        Arc::new(EventBatch::new(vec![event("a", 0), event("b", 1)])),
        Arc::new(EventBatch::new(Vec::new())),
        Arc::new(EventBatch::new(vec![event("c", 2)])),
    ]
}

#[test]
fn every_event_is_offered_in_order() {
    let batches = two_batches();
    let mut write: KafkaWrite<'_, &str> = KafkaWrite::start(&batches, 10, 1_000).unwrap();
    assert_eq!(write.total(), 3);
    let mut offered = Vec::new();
    loop {
        offered.push(write.current().payload.clone());
        match write.on_offered(Offered::Queued, 0) {
            Enqueue::Stop => break,
            next => assert_eq!(next, Enqueue::Offer),
        }
    }
    assert_eq!(offered, vec!["a", "b", "c"]);
    assert_eq!(write.abandoned(), 0);
    assert_eq!(write.conclude(true, None).unwrap(), WriteOutcome::written(3));
}

#[test]
fn a_full_queue_is_offered_again_until_the_deadline() {
    let batches = two_batches();
    let mut write: KafkaWrite<'_, &str> = KafkaWrite::start(&batches, 1_500, 7).unwrap();
    let deadline = enqueue_deadline(7, 1_500);
    assert_eq!(deadline, 1_500_000_007);
    assert_eq!(write.on_offered(Offered::Queued, 0), Enqueue::Offer);
    assert_eq!(
        write.on_offered(Offered::QueueFull, deadline - 1),
        Enqueue::OfferAfter { backoff_ms: 2 }
    );
    assert_eq!(write.current().payload, "b");
    assert_eq!(write.on_offered(Offered::QueueFull, deadline), Enqueue::Stop);
    assert_eq!(write.abandoned(), 2);
    let error = write.conclude(true, Some("later")).unwrap_err();
    assert_eq!(
        error.message(),
        "librdkafka queue stayed full for 1.5s; raise queue_buffering_max_messages/kbytes or \
         lower batch_max_events"
    );
}

#[test]
fn each_failure_of_a_write_has_its_own_error() {
    let batches = two_batches();
    let mut refused = KafkaWrite::start(&batches, 10, 1_000).unwrap();
    assert_eq!(refused.on_offered(Offered::Refused("too large"), 0), Enqueue::Stop);
    assert_eq!(refused.abandoned(), 3);
    let error = refused.conclude(true, None).unwrap_err();
    assert!(matches!(error, WriteError::Enqueue("too large")));
    assert_eq!(error.message(), "cannot enqueue Kafka record");

    let queued = || {
        let mut write: KafkaWrite<'_, &str> = KafkaWrite::start(&batches, 10, 1_000).unwrap();
        while write.on_offered(Offered::Queued, 0) != Enqueue::Stop {}
        write
    };
    let error = queued().conclude(true, Some("timed out")).unwrap_err();
    assert!(matches!(error, WriteError::Delivery("timed out")));
    assert_eq!(error.message(), "Kafka delivery failed");
    let error = queued().conclude(false, None).unwrap_err();
    assert_eq!(error.message(), "Kafka delivery tracker dropped");
}

#[test]
fn a_write_without_events_has_nothing_to_do() {
    let empty = vec![Arc::new(EventBatch::new(Vec::new()))];
    assert!(KafkaWrite::<&str>::start(&empty, 1, 1).is_none());
}

#[test]
fn a_record_keeps_the_event_s_key_and_timestamp() {
    let mut keyed = event("x", 0);
    keyed.key = Some("k".into());
    keyed.timestamp_ms = Some(9);
    let record = outgoing_record("output", &keyed);
    assert_eq!(record.topic, "output");
    assert_eq!(record.key, Some(&b"k"[..]));
    assert_eq!(record.payload, b"x");
    assert_eq!(record.timestamp, Some(9));
    let plain_event = event("x", 0);
    let plain = outgoing_record("output", &plain_event);
    assert_eq!((plain.key, plain.timestamp), (None, None));
}

fn clickhouse_config() -> ClickhouseSinkConfig {
    ClickhouseSinkConfig {
        inputs: vec!["in".to_owned()],
        endpoint: "http://localhost:8123".to_owned(),
        database: "analytics".to_owned(),
        table: "odd`name".to_owned(),
        user: "default".to_owned(),
        password: String::new(),
        schema: ClickhouseSchema::Json,
        metadata_columns: MetadataColumns {
            offset: Some("_offset".to_owned()),
            ..MetadataColumns::default()
        },
        allow_errors_num: 0,
        allow_errors_ratio: None,
        buffer_capacity: 32,
        batch_max_events: 10,
        batch_max_bytes: 20,
        batch_linger_ms: 50,
        max_concurrent_writes: 1,
        retry_max_attempts: 5,
        retry_initial_backoff_ms: 100,
        retry_max_backoff_ms: 5_000,
    }
}

#[test]
fn a_clickhouse_sink_connects_as_configured() {
    let sink = ClickhouseSink::new("ch", &clickhouse_config());
    assert_eq!(sink.name(), "ch");
    assert_eq!(sink.table(), "odd`name");
    assert_eq!(sink.schema(), ClickhouseSchema::Json);
    assert_eq!(
        sink.batch_settings(),
        BatchSettings { max_events: 10, max_bytes: 20, linger_ms: 50 }
    );
    assert_eq!(sink.client().database(), Some("analytics"));
    assert_eq!(sink.client().get_setting("input_format_allow_errors_num"), None);
    assert_eq!(sink.client().get_setting("input_format_allow_errors_ratio"), None);
    assert_eq!(sink.insert_statement(), "INSERT INTO `odd\\`name` FORMAT JSONEachRow");

    let lenient = ClickhouseSink::new(
        "ch",
        &ClickhouseSinkConfig {
            allow_errors_num: 5,
            allow_errors_ratio: Some("0.25".to_owned()),
            ..clickhouse_config()
        },
    );
    assert_eq!(lenient.client().get_setting("input_format_allow_errors_num"), Some("5"));
    assert_eq!(lenient.client().get_setting("input_format_allow_errors_ratio"), Some("0.25"));
}

#[test]
fn rows_that_are_no_objects_are_dropped_and_counted() {
    let sink = ClickhouseSink::new("ch", &clickhouse_config());
    let batches = vec![
        Arc::new(EventBatch::new(vec![event("{\"a\":1}", 10), event("", 11)])),
        Arc::new(EventBatch::new(vec![event("[1]", 12), event("{}", 13)])),
    ];
    let rows = sink.json_rows(&batches);
    assert_eq!(rows.buffer, b"{\"_offset\":10,\"a\":1}\n{\"_offset\":13}\n");
    assert_eq!(rows.outcome, WriteOutcome { written: 2, dropped: 2 });
    assert_eq!(rows.first_rejection, Some((Rejection::Empty, 11)));
    assert!(rows.needs_insert());

    let all_bad = vec![Arc::new(EventBatch::new(vec![event("nope", 1)]))];
    let rows = json_rows(&all_bad, &MetadataColumns::default());
    assert!(!rows.needs_insert());
    assert_eq!(rows.first_rejection, Some((Rejection::NotAnObject, 1)));
}

#[test]
fn event_rows_carry_the_seven_columns() {
    let mut keyed = event("payload", 7);
    keyed.key = Some("k".into());
    keyed.timestamp_ms = Some(123);
    let batches = vec![Arc::new(EventBatch::new(vec![keyed, event("other", 8)]))];
    let rows = event_rows(&batches);
    assert_eq!(rows.len(), 2);
    assert_eq!(rows[0].timestamp_ms, 123);
    assert_eq!(rows[0].source_component, "s");
    assert_eq!(rows[0].source_topic, "t");
    assert_eq!((rows[0].source_partition, rows[0].source_offset), (0, 7));
    assert_eq!((rows[0].key, rows[0].payload), (&b"k"[..], &b"payload"[..]));
    assert_eq!(rows[1].timestamp_ms, 0);
    assert!(rows[1].key.is_empty());
    assert_eq!(event_outcome(&batches), WriteOutcome { written: 2, dropped: 0 });
    assert_eq!(event_outcome(&[]), WriteOutcome { written: 0, dropped: 0 });
}

#[test]
fn identifiers_are_quoted() {
    assert_eq!(escape_identifier("events"), "`events`");
    assert_eq!(escape_identifier(""), "``");
    assert_eq!(escape_identifier("a`b`"), "`a\\`b\\``");
    assert_eq!(escape_identifier("a`b"), "`a\\`b`");
    assert_eq!(escape_identifier("orders"), "`orders`");
    assert_eq!(escape_identifier("\\"), "`\\\\`");
    assert_eq!(escape_identifier("a\\`b"), "`a\\\\\\`b`");
}

fn sink_loop(max_events: usize, max_writes: usize) -> SinkLoop<u32, &'static str> {
    SinkLoop::new(&BatchSettings { max_events, max_bytes: 1 << 20, linger_ms: 5 }, max_writes)
}

/// Ends a write: its envelopes, whether they are delivered, and a fatal error.
fn end(
    sink: &mut SinkLoop<u32, &'static str>,
    number: u64,
    result: Result<u64, &'static str>,
) -> (Vec<u32>, bool, Option<&'static str>) {
    let mut counters = SinkMetrics::default();
    let ended = sink.on_write_end(number, result.map(WriteOutcome::written), &mut counters);
    (ended.envelopes, ended.delivered, ended.fatal)
}

#[test]
fn envelopes_are_coalesced_until_a_limit_is_reached() {
    let mut counters = SinkMetrics::default();
    let mut sink = sink_loop(3, 1);
    assert_eq!(sink.phase(), SinkPhase::Accepting);
    assert!(sink.on_envelope(batch().remove(0), 1), "the first envelope starts the deadline");
    assert_eq!(sink.phase(), SinkPhase::Coalescing);
    assert!(!sink.can_dispatch());
    assert!(!sink.on_envelope(batch().remove(0), 2));
    assert!(!sink.on_envelope(batch().remove(0), 3));
    assert_eq!(sink.phase(), SinkPhase::Collected);
    assert!(sink.can_dispatch());
    let job = sink.dispatch(4, &mut counters);
    assert_eq!(job.number, 0);
    assert_eq!(job.batches.len(), 3);
    assert_eq!(counters.queue_depth, 4);
    assert!(sink.awaits_write());
    assert_eq!(end(&mut sink, 0, Ok(3)), (vec![1, 2, 3], true, None));
}

#[test]
fn a_write_waits_for_a_free_slot() {
    let mut counters = SinkMetrics::default();
    let mut sink = sink_loop(1, 1);
    sink.on_envelope(batch().remove(0), 1);
    sink.dispatch(0, &mut counters);
    sink.on_envelope(batch().remove(0), 2);
    assert!(!sink.can_dispatch(), "the only slot is taken");
    assert_eq!(end(&mut sink, 0, Ok(1)), (vec![1], true, None));
    assert!(sink.can_dispatch());
    assert_eq!(sink.dispatch(0, &mut counters).number, 1);
    assert_eq!(end(&mut sink, 1, Ok(1)), (vec![2], true, None));
}

#[test]
fn a_failed_write_ends_the_sink() {
    let mut counters = SinkMetrics::default();
    let mut sink = sink_loop(1, 2);
    sink.on_envelope(batch().remove(0), 1);
    sink.dispatch(0, &mut counters);
    assert_eq!(end(&mut sink, 0, Err("down")), (vec![1], false, Some("down")));
    assert_eq!(sink.phase(), SinkPhase::Stopped);
}

#[test]
fn every_envelope_is_answered_by_its_own_write() {
    let mut counters = SinkMetrics::default();
    let mut sink = sink_loop(1, 3);
    for envelope in 0..3 {
        sink.on_envelope(batch().remove(0), envelope);
        sink.dispatch(0, &mut counters);
    }
    // The writes end in another order than that of their dispatch.
    assert_eq!(end(&mut sink, 2, Ok(1)), (vec![2], true, None));
    assert_eq!(end(&mut sink, 0, Err("down")), (vec![0], false, Some("down")));
    // The sink has ended, and what is still under way answers nevertheless.
    assert_eq!(end(&mut sink, 1, Ok(1)), (vec![1], true, None));
    assert!(!sink.awaits_write());
    assert_eq!(sink.abandon(), Vec::<u32>::new());
}

#[test]
fn an_abandoned_sink_hands_back_what_has_no_answer() {
    let mut counters = SinkMetrics::default();
    let mut sink = sink_loop(2, 3);
    for envelope in 0..6 {
        sink.on_envelope(batch().remove(0), envelope);
        if sink.can_dispatch() {
            sink.dispatch(0, &mut counters);
        }
    }
    sink.on_envelope(batch().remove(0), 6);
    assert_eq!(end(&mut sink, 1, Err("down")), (vec![2, 3], false, Some("down")));
    assert_eq!(sink.abandon(), vec![0, 1, 4, 5, 6]);
}

#[test]
fn a_write_counts_only_what_it_wrote() {
    let mut counters = SinkMetrics::default();
    let mut sink = sink_loop(1, 2);
    for envelope in 0..2 {
        sink.on_envelope(batch().remove(0), envelope);
        sink.dispatch(0, &mut counters);
    }
    let outcome = WriteOutcome { written: 5, dropped: 2 };
    assert!(sink.on_write_end(0, Ok(outcome), &mut counters).delivered);
    assert_eq!((counters.events_out, counters.events_dropped, counters.batches_written), (5, 2, 1));
    assert!(!sink.on_write_end(1, Err("down"), &mut counters).delivered);
    assert_eq!((counters.events_out, counters.events_dropped, counters.batches_written), (5, 2, 1));
}

#[test]
fn a_draining_sink_lets_every_write_finish_and_keeps_the_first_error() {
    let mut counters = SinkMetrics::default();
    let mut sink = sink_loop(1, 3);
    for envelope in 0..3 {
        sink.on_envelope(batch().remove(0), envelope);
        sink.dispatch(0, &mut counters);
    }
    sink.on_shutdown();
    assert!(!sink.finished());
    assert_eq!(end(&mut sink, 1, Ok(1)), (vec![1], true, None));
    assert_eq!(end(&mut sink, 2, Err("first")), (vec![2], false, None));
    assert_eq!(end(&mut sink, 0, Err("second")), (vec![0], false, None));
    assert!(sink.finished());
    assert_eq!(sink.outcome(), Err("first"));
}

#[test]
fn a_closed_queue_still_writes_what_is_collected() {
    let mut counters = SinkMetrics::default();
    let mut sink = sink_loop(10, 1);
    sink.on_envelope(batch().remove(0), 1);
    sink.on_closed();
    assert!(sink.can_dispatch());
    assert_eq!(sink.dispatch(0, &mut counters).batches.len(), 1);
    sink.on_closed();
    assert_eq!(sink.phase(), SinkPhase::Draining);
    assert_eq!(end(&mut sink, 0, Ok(1)), (vec![1], true, None));
    assert!(sink.finished());
    assert_eq!(sink.outcome(), Ok(()));
}

#[test]
fn the_linger_deadline_closes_a_partial_write() {
    let mut sink = sink_loop(10, 1);
    sink.on_envelope(batch().remove(0), 1);
    sink.on_deadline();
    assert!(sink.can_dispatch());
}

#[test]
fn a_duration_is_shown_in_the_unit_that_it_fills() {
    for millis in (0..=2_100).chain([9_990, 10_001, 30_000, 59_500, 3_600_000, u64::MAX]) {
        assert_eq!(show_millis(millis), format!("{:?}", std::time::Duration::from_millis(millis)));
    }
}
