//! The Kafka source: records, offsets, the in-flight window.

use std::sync::Arc;

use rdkafka::topic_partition_list::Offset;
use rustper::config::KafkaSourceConfig;
use rustper::event::{BatchBuffer, Event, SourceMetadata};
use rustper::idmap::IdMap;
use rustper::metrics::{Metrics, SourceMetrics};
use rustper::source::kafka::{
    offsets_for, partition_count, to_event, KafkaSource, MetricsContext, Rebalance, Record, Throughput,
    ThroughputReporter, TopicCache,
};
use rustper::source::window::{DispatchedBatch, SourceLoop};

fn event(topic: &str, partition: i32, offset: i64) -> Event {
    Event {
        key: None,
        payload: "x".into(),
        timestamp_ms: None,
        source: SourceMetadata {
            component_id: Arc::from("source"),
            topic: Arc::from(topic),
            partition,
            offset,
        },
    }
}

#[test]
fn next_offset_is_highest_consumed_offset_plus_one() {
    let events = vec![
        event("a", 0, 10),
        event("a", 0, 12), // same partition: the highest offset wins
        event("a", 1, 5),
        event("b", 0, 3),
    ];
    let offsets = offsets_for(&events).unwrap();
    assert_eq!(offsets.find_partition("a", 0).unwrap().offset(), Offset::Offset(13));
    assert_eq!(offsets.find_partition("a", 1).unwrap().offset(), Offset::Offset(6));
    assert_eq!(offsets.find_partition("b", 0).unwrap().offset(), Offset::Offset(4));
}

#[test]
fn out_of_order_offsets_never_move_a_commit_backwards() {
    let events = vec![event("a", 0, 12), event("a", 0, 4), event("a", 0, 9)];
    assert_eq!(
        offsets_for(&events).unwrap().find_partition("a", 0).unwrap().offset(),
        Offset::Offset(13)
    );
}

#[test]
fn empty_events_yield_no_offsets() {
    let offsets = offsets_for(&[]).unwrap();
    assert!(offsets.elements().is_empty());
}

#[test]
fn topic_cache_returns_one_shared_arc_per_topic() {
    let mut cache = TopicCache::default();
    let first = cache.intern("a");
    let second = cache.intern("a");
    let other = cache.intern("b");
    let first_again = cache.intern("a");
    assert!(Arc::ptr_eq(&first, &second), "repeat lookup must be shared");
    assert!(Arc::ptr_eq(&first, &first_again), "map lookup must be shared");
    assert_eq!(other.as_ref(), "b");
}

#[test]
fn a_negative_resume_offset_is_refused() {
    let refused = offsets_for(&[event("a", 0, 1), event("a", 1, -5)]);
    let Err(refused) = refused else {
        panic!("a negative offset cannot be committed");
    };
    assert_eq!(refused.message(), "cannot record next offsets for Kafka batch");
    // One before zero is the last offset that can be resumed from.
    assert!(offsets_for(&[event("a", 1, -1)]).is_ok());
}

#[test]
fn a_record_becomes_an_event_with_its_own_copies() {
    let mut topics = TopicCache::default();
    let mut buffer = BatchBuffer::with_chunk(4);
    let component: Arc<str> = Arc::from("in");
    let record = Record {
        key: Some(b"key"),
        payload: Some(b"payload"),
        timestamp_ms: Some(12),
        topic: "orders",
        partition: 3,
        offset: 42,
    };
    let event = to_event(&component, &mut topics, &mut buffer, &record);
    assert_eq!(event.key.as_deref(), Some(&b"key"[..]));
    assert_eq!(event.payload.as_ref(), b"payload");
    assert_eq!(event.timestamp_ms, Some(12));
    assert_eq!(event.source.component_id.as_ref(), "in");
    assert_eq!(event.source.topic.as_ref(), "orders");
    assert_eq!((event.source.partition, event.source.offset), (3, 42));

    let tombstone = Record { key: None, payload: None, ..record };
    let event = to_event(&component, &mut topics, &mut buffer, &tombstone);
    assert!(event.key.is_none());
    assert!(event.payload.is_empty());
}

fn config(batch_size: usize, max_batches: usize, max_bytes: usize) -> KafkaSourceConfig {
    KafkaSourceConfig {
        brokers: "broker:9092".to_owned(),
        group_id: "group".to_owned(),
        topics: vec!["orders".to_owned()],
        session_timeout_ms: 45_000,
        batch_size,
        batch_linger_ms: 5,
        max_in_flight_batches: max_batches,
        max_in_flight_bytes: max_bytes,
        queued_max_messages_kbytes: 65_536,
        queued_min_messages: 100_000,
        max_poll_interval_ms: 300_000,
        client_config: IdMap::new(),
    }
}

fn source(batch_size: usize, max_batches: usize, max_bytes: usize) -> SourceLoop {
    let id: Arc<str> = Arc::from("in");
    SourceLoop::new(&id, &config(batch_size, max_batches, max_bytes))
}

fn feed(source: &mut SourceLoop, counters: &mut SourceMetrics, offset: i64) -> Option<DispatchedBatch> {
    assert!(source.awaits_record());
    let record = Record {
        key: None,
        payload: Some(b"x"),
        timestamp_ms: None,
        topic: "orders",
        partition: 0,
        offset,
    };
    source.on_record(&record, counters).dispatched.map(|batch| match batch {
        Ok(batch) => batch,
        Err(_) => panic!("offsets are not negative"),
    })
}

/// Commits everything that is ready, and returns the committed resume offsets.
fn commit(source: &mut SourceLoop, counters: &mut SourceMetrics) -> Vec<Offset> {
    let mut committed = Vec::new();
    while let Some(completion) = source.ready() {
        committed.push(completion.offsets.find_partition("orders", 0).unwrap().offset());
        source.on_committed(counters);
    }
    source.finish_round(counters);
    committed
}

#[test]
fn a_full_batch_is_dispatched_and_a_partial_one_at_the_deadline() {
    let mut counters = SourceMetrics::default();
    let mut source = source(2, 8, 1 << 20);
    assert!(!source.awaits_deadline() && !source.awaits_completion());
    assert!(feed(&mut source, &mut counters, 0).is_none());
    assert!(source.awaits_deadline());
    let full = feed(&mut source, &mut counters, 1).unwrap();
    assert_eq!((full.sequence, full.batch.len()), (0, 2));
    assert!(!source.awaits_deadline());
    assert!(feed(&mut source, &mut counters, 2).is_none());
    let Ok(partial) = source.on_deadline(&mut counters) else {
        panic!("offsets are not negative");
    };
    assert_eq!((partial.sequence, partial.batch.len()), (1, 1));
    assert_eq!(counters.batches_in, 2);
    assert_eq!(counters.in_flight_batches, 2);
    assert_eq!(
        counters.in_flight_bytes,
        (full.batch.bytes() + partial.batch.bytes()) as u64
    );
}

#[test]
fn the_first_record_of_a_batch_starts_the_linger_deadline() {
    let mut counters = SourceMetrics::default();
    let mut source = source(3, 8, 1 << 20);
    let record = |offset| Record {
        key: None,
        payload: None,
        timestamp_ms: None,
        topic: "orders",
        partition: 0,
        offset,
    };
    assert!(source.on_record(&record(0), &mut counters).opens_batch);
    assert!(!source.on_record(&record(1), &mut counters).opens_batch);
    assert!(source.on_record(&record(2), &mut counters).dispatched.is_some());
    assert!(source.on_record(&record(3), &mut counters).opens_batch);
}

#[test]
fn commits_follow_the_contiguous_acknowledged_prefix() {
    let mut counters = SourceMetrics::default();
    let mut source = source(1, 8, 1 << 20);
    for offset in 0..3 {
        assert!(feed(&mut source, &mut counters, offset).is_some());
    }
    // The later batches finish first: nothing may be committed yet.
    assert_eq!(source.on_joined(2, Ok::<(), ()>(()), &mut counters), Ok(()));
    assert_eq!(commit(&mut source, &mut counters), vec![]);
    assert_eq!(source.on_joined(1, Ok::<(), ()>(()), &mut counters), Ok(()));
    assert_eq!(commit(&mut source, &mut counters), vec![]);
    assert_eq!(counters.events_in, 0);
    // The first one releases the whole prefix, in order.
    assert_eq!(source.on_joined(0, Ok::<(), ()>(()), &mut counters), Ok(()));
    assert_eq!(
        commit(&mut source, &mut counters),
        vec![Offset::Offset(1), Offset::Offset(2), Offset::Offset(3)]
    );
    assert_eq!(counters.commits, 3);
    assert_eq!(counters.events_in, 3);
    assert_eq!(counters.in_flight_batches, 0);
    assert_eq!(counters.in_flight_bytes, 0);
    assert_eq!(counters.bytes_in, 3);
}

#[test]
fn a_rejected_batch_blocks_every_later_commit() {
    let mut counters = SourceMetrics::default();
    let mut source = source(1, 8, 1 << 20);
    for offset in 0..3 {
        assert!(feed(&mut source, &mut counters, offset).is_some());
    }
    assert_eq!(source.on_joined(0, Ok::<(), &str>(()), &mut counters), Ok(()));
    assert_eq!(commit(&mut source, &mut counters), vec![Offset::Offset(1)]);
    assert_eq!(source.on_joined(2, Ok::<(), &str>(()), &mut counters), Ok(()));
    assert_eq!(source.on_joined(1, Err::<(), &str>("rejected"), &mut counters), Err("rejected"));
    assert_eq!(commit(&mut source, &mut counters), vec![]);
    assert!(!source.awaits_record() && !source.awaits_deadline() && !source.awaits_completion());
    assert_eq!(counters.commits, 1);
}

#[test]
fn the_window_closes_at_its_batch_and_byte_limits() {
    let mut counters = SourceMetrics::default();
    let mut two = source(1, 2, 1 << 20);
    assert!(feed(&mut two, &mut counters, 0).is_some());
    assert!(two.admits_batch());
    assert!(feed(&mut two, &mut counters, 1).is_some());
    assert!(!two.admits_batch() && !two.awaits_record() && two.awaits_completion());
    assert_eq!(two.on_joined(1, Ok::<(), ()>(()), &mut counters), Ok(()));
    assert!(two.awaits_record());

    // One byte of budget admits one batch, which then overshoots it.
    let mut tight = source(1, 8, 1);
    assert!(feed(&mut tight, &mut counters, 0).is_some());
    assert!(!tight.admits_batch());
    assert_eq!(tight.on_joined(0, Ok::<(), ()>(()), &mut counters), Ok(()));
    assert!(tight.admits_batch());
}

#[test]
fn a_round_of_commits_is_counted_once() {
    let mut counters = SourceMetrics::default();
    let mut source = source(2, 8, 1 << 20);
    for offset in 0..4 {
        feed(&mut source, &mut counters, offset);
    }
    assert_eq!(source.on_joined(1, Ok::<(), ()>(()), &mut counters), Ok(()));
    assert_eq!(source.on_joined(0, Ok::<(), ()>(()), &mut counters), Ok(()));
    source.on_committed(&mut counters);
    source.on_committed(&mut counters);
    assert_eq!(source.finish_round(&mut counters), (4, 4));
    assert_eq!(source.finish_round(&mut counters), (0, 4));
    assert_eq!(counters.events_in, 4);
}

#[test]
fn the_consumer_never_moves_offsets_by_itself() {
    let source = KafkaSource::new("in", &config(1, 1, 1));
    assert_eq!(source.id().as_ref(), "in");
    let client = source.client();
    assert_eq!(client.get("bootstrap.servers"), Some("broker:9092"));
    assert_eq!(client.get("group.id"), Some("group"));
    assert_eq!(client.get("session.timeout.ms"), Some("45000"));
    assert_eq!(client.get("max.poll.interval.ms"), Some("300000"));
    assert_eq!(client.get("enable.auto.commit"), Some("false"));
    assert_eq!(client.get("enable.auto.offset.store"), Some("false"));
    assert_eq!(client.get("auto.offset.reset"), Some("earliest"));
    assert_eq!(client.get("queued.max.messages.kbytes"), Some("65536"));
    assert_eq!(client.get("queued.min.messages"), Some("100000"));
    assert_eq!(client.config_map().len(), 9);
}

#[test]
fn client_config_is_applied_last() {
    let mut overrides = IdMap::new();
    overrides.insert("auto.offset.reset".to_owned(), "latest".to_owned());
    overrides.insert("socket.nagle.disable".to_owned(), "true".to_owned());
    let source = KafkaSource::new(
        "in",
        &KafkaSourceConfig { client_config: overrides, ..config(1, 1, 1) },
    );
    assert_eq!(source.client().get("auto.offset.reset"), Some("latest"));
    assert_eq!(source.client().get("socket.nagle.disable"), Some("true"));
    assert_eq!(source.client().config_map().len(), 10);
}

#[test]
fn only_the_assignment_half_of_a_rebalance_is_counted() {
    let mut metrics = Metrics::new(&["in"], &[]);
    let id: Arc<str> = Arc::from("in");
    let context = MetricsContext::new(&id);
    let assigned = context.post_rebalance(&mut metrics, &Rebalance::Assign { partitions: 6 });
    assert_eq!(assigned, Some(6));
    assert_eq!(context.post_rebalance(&mut metrics, &Rebalance::Revoke { partitions: 6 }), None);
    assert_eq!(context.post_rebalance(&mut metrics, &Rebalance::Error), None);
    assert_eq!(metrics.source("in").rebalances, 1);
}

#[test]
fn throughput_is_reported_once_per_window() {
    let mut reporter = ThroughputReporter::new(100, 1_000);
    assert_eq!(reporter.record(60, 60, 2_000), None);
    assert_eq!(
        reporter.record(60, 120, 5_000),
        Some(Throughput { processed: 120, window_events: 120, window_ns: 4_000, total_ns: 4_000 })
    );
    // The next report is due at 200, not at 220.
    assert_eq!(reporter.record(79, 199, 6_000), None);
    assert_eq!(
        reporter.record(1, 200, 7_000),
        Some(Throughput { processed: 200, window_events: 80, window_ns: 2_000, total_ns: 6_000 })
    );
    assert!(ThroughputReporter::new(0, 0).record(1, 1, 0).is_some());
}

#[test]
fn only_payload_bytes_are_counted_as_consumed() {
    let mut counters = SourceMetrics::default();
    let mut source = source(2, 8, 1 << 20);
    let record = |payload: &'static [u8], offset| Record {
        key: Some(b"k"),
        payload: Some(payload),
        timestamp_ms: None,
        topic: "orders",
        partition: 0,
        offset,
    };
    assert!(source.on_record(&record(b"payload", 0), &mut counters).dispatched.is_none());
    let Some(Ok(sent)) = source.on_record(&record(b"four", 1), &mut counters).dispatched else {
        panic!("the batch is full");
    };
    assert_eq!(sent.batch.payload_bytes(), 11);
    assert_eq!(counters.in_flight_bytes, sent.batch.bytes() as u64, "the budget counts it all");
    assert_eq!(source.on_joined(0, Ok::<(), ()>(()), &mut counters), Ok(()));
    assert_eq!(commit(&mut source, &mut counters), vec![Offset::Offset(2)]);
    assert_eq!(counters.events_in, 2);
    assert_eq!(counters.bytes_in, 11);
}

#[test]
fn every_batch_holds_between_one_event_and_the_batch_size() {
    let mut counters = SourceMetrics::default();
    let mut source = source(3, 8, 1 << 20);
    let mut sizes = Vec::new();
    for offset in 0..7 {
        sizes.extend(feed(&mut source, &mut counters, offset).map(|sent| sent.batch.len()));
    }
    let Ok(rest) = source.on_deadline(&mut counters) else {
        panic!("offsets are not negative");
    };
    sizes.push(rest.batch.len());
    assert_eq!(sizes, vec![3, 3, 1]);
}

#[test]
fn a_batch_may_be_larger_than_an_offset_list() {
    let mut counters = SourceMetrics::default();
    let mut source = source(usize::MAX, 8, 1 << 20);
    assert!(source.has_room_for_partition());
    for offset in 0..3 {
        assert!(feed(&mut source, &mut counters, offset).is_none());
    }
    assert!(source.has_room_for_partition());
    let events = [event("a", 0, 1), event("b", 0, 1), event("a", 1, 1), event("a", 0, 2)];
    assert_eq!(partition_count(&events), 3);
}

#[test]
fn throughput_is_reported_up_to_the_last_multiple() {
    let mut reporter = ThroughputReporter::new(10, 0);
    let total = 18_446_744_073_709_551_609;
    let report = reporter.record(1, total, 5).unwrap();
    assert_eq!(report.processed, total);
    assert_eq!(report.window_events, 1);
    // The next report is due at 18446744073709551610, the last multiple of ten.
    assert_eq!(reporter.record(1, total, 6), None);
}

#[test]
fn nothing_is_committed_after_a_shutdown() {
    let mut counters = SourceMetrics::default();
    let mut source = source(1, 8, 1 << 20);
    for offset in 0..3 {
        assert!(feed(&mut source, &mut counters, offset).is_some());
    }
    assert_eq!(source.on_joined(0, Ok::<(), ()>(()), &mut counters), Ok(()));
    assert!(source.ready().is_some());
    assert_eq!(source.on_shutdown::<()>(), Ok(()));
    assert!(source.ready().is_none(), "a delivered batch stays uncommitted");
    assert!(!source.awaits_record() && !source.awaits_deadline() && !source.awaits_completion());
    assert_eq!(source.finish_round(&mut counters), (0, 0));
    assert_eq!(counters.commits, 0);
}

#[test]
fn offsets_that_cannot_be_recorded_end_the_source() {
    let mut counters = SourceMetrics::default();
    let mut source = source(1, 8, 1 << 20);
    let record = Record {
        key: None,
        payload: None,
        timestamp_ms: None,
        topic: "orders",
        partition: 0,
        offset: -5,
    };
    assert!(matches!(source.on_record(&record, &mut counters).dispatched, Some(Err(_))));
    assert!(!source.awaits_record());
    assert_eq!(counters.batches_in, 0);
}
