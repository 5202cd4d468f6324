//! The fan-out and the sink runtime together, with the brokers replaced by
//! controllable in-process sinks.

use std::collections::VecDeque;
use std::sync::Arc;

use rustper::config::{Config, DeliverySettings, KafkaSinkConfig, MetricsConfig, SinkConfig};
use rustper::event::{Event, EventBatch, SourceMetadata};
use rustper::idmap::IdMap;
use rustper::metrics::Metrics;
use rustper::sink::coalescing::{SinkLoop, SinkPhase};
use rustper::sink::{Attempted, BatchSettings, Retries, WriteOutcome};
use rustper::topology::{
    conclude, destinations_of, run_outcome, AckState, Dispatch, Ended, Fanout, FanoutError, SinkEnvelope, Supervisor,
};

fn batch(count: usize, first_offset: i64) -> EventBatch {
    let component: Arc<str> = Arc::from("source");
    let topic: Arc<str> = Arc::from("input");
    EventBatch::new(
        (0..count)
            .map(|index| Event {
                key: None,
                payload: "payload".into(),
                timestamp_ms: Some(1),
                source: SourceMetadata {
                    component_id: Arc::clone(&component),
                    topic: Arc::clone(&topic),
                    partition: 0,
                    offset: first_offset + index as i64,
                },
            })
            .collect(),
    )
}

fn settings(retries: u32) -> DeliverySettings {
    DeliverySettings {
        max_concurrent_writes: 1,
        retry_max_attempts: retries,
        retry_initial_backoff_ms: 1,
        retry_max_backoff_ms: 2,
    }
}

/// A batch on its way: which send it belongs to, and its envelope.
type Queued = (usize, SinkEnvelope);

/// One running sink, driven by hand.
struct RunningSink {
    id: String,
    queue: VecDeque<Queued>,
    machine: SinkLoop<Queued, String>,
    delivery: DeliverySettings,
    metrics: Metrics,
    events: u64,
    writes: usize,
    fail_first: usize,
    failure: Option<String>,
}

impl RunningSink {
    fn spawn(id: &str, fail_first: usize, delivery: DeliverySettings) -> Self {
        RunningSink {
            id: id.to_owned(),
            queue: VecDeque::new(),
            machine: SinkLoop::new(
                &BatchSettings { max_events: 10_000, max_bytes: 1024 * 1024, linger_ms: 1 },
                delivery.max_concurrent_writes,
            ),
            delivery,
            metrics: Metrics::new(&["source"], &[id]),
            events: 0,
            writes: 0,
            fail_first,
            failure: None,
        }
    }

    fn write_batches(&mut self, batches: &[Arc<EventBatch>]) -> Result<WriteOutcome, String> {
        self.writes += 1;
        if self.writes <= self.fail_first {
            return Err(format!("injected failure on write {}", self.writes));
        }
        let count: u64 = batches.iter().map(|batch| batch.len() as u64).sum();
        self.events += count;
        Ok(WriteOutcome::written(count))
    }

    /// Takes everything queued, writes it, and acknowledges it.
    fn run_until_idle(&mut self, sends: &mut [Send]) {
        while let Some((send, envelope)) = self.queue.pop_front() {
            let batch = Arc::clone(envelope.batch());
            self.machine.on_envelope(batch, (send, envelope));
            if self.queue.is_empty() && self.machine.phase() == SinkPhase::Coalescing {
                self.machine.on_deadline();
            }
            if !self.machine.can_dispatch() {
                continue;
            }
            let depth = self.queue.len() as u64;
            let id = self.id.clone();
            let job = self.machine.dispatch(depth, self.metrics.sink_mut(&id));
            let mut retries = Retries::new(&self.delivery);
            let result = loop {
                let attempt = self.write_batches(&job.batches);
                match retries.on_attempt(attempt, self.metrics.sink_mut(&id)) {
                    Attempted::Done(outcome) => break Ok(outcome),
                    Attempted::Retry { .. } => {}
                    Attempted::GiveUp(error) => break Err(error),
                }
            };
            let ended = self.machine.on_write_end(job.number, result, self.metrics.sink_mut(&id));
            for (send, mut envelope) in ended.envelopes {
                sends[send].answer(&mut envelope, ended.delivered);
            }
            if let Some(error) = ended.fatal {
                self.failure = Some(error);
                return;
            }
        }
    }

    fn stop(mut self) -> Result<(u64, usize, Metrics), (String, Metrics)> {
        if let Some(error) = self.failure {
            return Err((error, self.metrics));
        }
        self.machine.on_shutdown();
        assert!(self.machine.finished());
        self.machine.outcome().unwrap();
        Ok((self.events, self.writes, self.metrics))
    }
}

/// One batch under way.
struct Send {
    state: AckState<()>,
    verdict: Option<bool>,
}

impl Send {
    fn answer(&mut self, envelope: &mut SinkEnvelope, delivered: bool) {
        let notice = if delivered {
            envelope.delivered(&mut self.state)
        } else {
            envelope.failed(&mut self.state)
        };
        if let Some(((), verdict)) = notice {
            assert!(self.verdict.is_none(), "a verdict is given once");
            self.verdict = Some(verdict);
        }
    }
}

/// Sends batches to every sink at once, lets the sinks run, and concludes.
fn send_all(sinks: &mut [&mut RunningSink], batches: Vec<EventBatch>) -> Vec<Result<(), FanoutError>> {
    let fanout = Fanout::new((0..sinks.len()).collect::<Vec<usize>>());
    let mut sends = Vec::new();
    for batch in batches {
        let Dispatch { state, envelopes } = fanout.send(batch, ()).unwrap();
        for (destination, envelope) in fanout.destinations().iter().zip(envelopes) {
            sinks[*destination].queue.push_back((sends.len(), envelope));
        }
        sends.push(Send { state, verdict: None });
    }
    for sink in sinks.iter_mut() {
        sink.run_until_idle(&mut sends);
    }
    sends.into_iter().map(|send| conclude(true, send.verdict)).collect()
}

#[test]
fn every_sink_receives_every_event() {
    let mut first = RunningSink::spawn("a", 0, settings(1));
    let mut second = RunningSink::spawn("b", 0, settings(1));
    for round in 0..5 {
        let sent = send_all(&mut [&mut first, &mut second], vec![batch(10, round * 10)]);
        assert_eq!(sent, vec![Ok(())]);
    }
    assert_eq!(first.stop().unwrap().0, 50);
    assert_eq!(second.stop().unwrap().0, 50);
}

#[test]
fn a_transient_sink_failure_is_retried_and_the_batch_is_acknowledged() {
    let mut sink = RunningSink::spawn("flaky", 2, settings(5));
    assert_eq!(send_all(&mut [&mut sink], vec![batch(4, 0)]), vec![Ok(())]);
    let (events, writes, _) = sink.stop().unwrap();
    assert_eq!(writes, 3, "two failures then success");
    assert_eq!(events, 4);
}

#[test]
fn an_unrecoverable_sink_failure_rejects_the_batch() {
    let mut sink = RunningSink::spawn("broken", usize::MAX, settings(2));
    let error = send_all(&mut [&mut sink], vec![batch(4, 0)]).remove(0).unwrap_err();
    assert!(
        error.message().contains("rejected the batch"),
        "the source must learn the batch was not delivered, got: {}",
        error.message(),
    );
    assert!(sink.stop().is_err(), "the sink reports the failure");
}

#[test]
fn coalescing_merges_queued_batches_into_one_write() {
    // Several batches queue up; they must reach the sink as a single coalesced
    // write.
    let mut sink = RunningSink::spawn("coalescing", 0, settings(1));
    let sent = send_all(&mut [&mut sink], (0..4).map(|round| batch(10, round * 10)).collect());
    assert!(sent.iter().all(|sent| sent.is_ok()));
    let (events, writes, _) = sink.stop().unwrap();
    assert_eq!(events, 40);
    assert!(writes < 4, "batches must coalesce, saw {writes} writes");
}

#[test]
fn counters_track_writes_retries_and_failures_through_the_runtime() {
    let mut sink = RunningSink::spawn("counted", 2, settings(5));
    assert_eq!(send_all(&mut [&mut sink], vec![batch(6, 0)]), vec![Ok(())]);
    let (_, _, metrics) = sink.stop().unwrap();
    let counters = metrics.sink("counted");
    assert_eq!(counters.events_out, 6);
    assert_eq!(counters.batches_written, 1);
    assert_eq!(counters.retries, 2, "two injected failures were retried");
    assert_eq!(counters.write_errors, 0);
    assert_eq!(counters.events_dropped, 0);
}

#[test]
fn an_unrecoverable_failure_is_counted_and_nothing_is_reported_written() {
    let mut sink = RunningSink::spawn("counted_bad", usize::MAX, settings(2));
    assert!(send_all(&mut [&mut sink], vec![batch(4, 0)])[0].is_err());
    let Err((_, metrics)) = sink.stop() else {
        panic!("the sink reports the failure");
    };
    let counters = metrics.sink("counted_bad");
    assert_eq!(counters.write_errors, 1);
    assert_eq!(counters.events_out, 0, "a failed write must not inflate the written count");
    assert_eq!(counters.batches_written, 0);
}

#[test]
fn a_fanout_with_no_destinations_succeeds() {
    let fanout: Fanout<usize> = Fanout::new(Vec::new());
    assert!(fanout.send(batch(1, 0), ()).is_none());
}

#[test]
fn waits_for_every_fanout_branch() {
    let fanout = Fanout::new(vec!["first", "second"]);
    let Dispatch { mut state, mut envelopes } = fanout.send(batch(1, 0), "sender").unwrap();
    assert_eq!(envelopes.len(), 2);
    assert!(
        envelopes[0].delivered(&mut state).is_none(),
        "second branch has not acknowledged yet"
    );
    let notice = envelopes[1].delivered(&mut state);
    assert_eq!(notice, Some(("sender", true)));
    assert!(conclude(true, Some(true)).is_ok());
}

#[test]
fn one_failed_branch_rejects_the_batch() {
    let fanout = Fanout::new(vec!["first", "second"]);
    let Dispatch { mut state, mut envelopes } = fanout.send(batch(1, 0), ()).unwrap();
    assert!(envelopes[0].delivered(&mut state).is_none());
    let ((), verdict) = envelopes[1].failed(&mut state).unwrap();
    assert!(conclude(true, Some(verdict)).is_err());
}

#[test]
fn a_dropped_envelope_fails_the_batch() {
    let fanout = Fanout::new(vec!["only"]);
    let Dispatch { mut state, mut envelopes } = fanout.send(batch(1, 0), ()).unwrap();
    // Dropping an envelope answers for it.
    let ((), verdict) = envelopes[0].failed(&mut state).unwrap();
    assert!(conclude(true, Some(verdict)).is_err());
}

#[test]
fn only_the_first_answer_of_a_branch_counts() {
    let fanout = Fanout::new(vec!["first", "second"]);
    let Dispatch { mut state, mut envelopes } = fanout.send(batch(1, 0), ()).unwrap();
    assert!(envelopes[0].delivered(&mut state).is_none());
    // An answered envelope is dropped later on, which changes nothing.
    assert!(envelopes[0].failed(&mut state).is_none());
    assert_eq!(state.remaining, 1);
    assert_eq!(envelopes[1].delivered(&mut state), Some(((), true)));
    assert!(envelopes[1].failed(&mut state).is_none());
}

#[test]
fn every_branch_carries_the_same_batch() {
    let fanout = Fanout::new(vec![1, 2, 3]);
    let dispatch = fanout.send(batch(4, 0), ()).unwrap();
    assert_eq!(dispatch.envelopes.len(), 3);
    for envelope in &dispatch.envelopes {
        assert_eq!(envelope.batch().len(), 4);
        assert!(Arc::ptr_eq(envelope.batch(), dispatch.envelopes[0].batch()));
    }
}

#[test]
fn each_way_to_fail_a_send_has_its_own_error() {
    assert_eq!(conclude(true, Some(true)), Ok(()));
    assert_eq!(conclude(false, Some(true)), Err(FanoutError::SinkStopped));
    assert_eq!(conclude(true, Some(false)), Err(FanoutError::Rejected));
    assert_eq!(conclude(true, None), Err(FanoutError::AckClosed));
    assert_eq!(FanoutError::SinkStopped.message(), "sink task stopped");
    assert_eq!(FanoutError::Rejected.message(), "one or more sinks rejected the batch");
    assert_eq!(FanoutError::AckClosed.message(), "acknowledgement channel closed");
}

#[test]
fn a_topology_stops_on_the_first_reason_to() {
    let mut supervisor = Supervisor::new(2);
    assert_eq!(supervisor.on_end::<&str>(Ended::Sink(Ok(()))), None);
    assert_eq!(supervisor.on_end::<&str>(Ended::Source(Ok(()))), None);
    assert_eq!(supervisor.on_end::<&str>(Ended::Source(Ok(()))), Some(Ok(())));

    assert_eq!(Supervisor::new(1).on_end(Ended::Sink(Err("down"))), Some(Err("down")));
    assert_eq!(Supervisor::new(2).on_end(Ended::Source(Err("lost"))), Some(Err("lost")));
    assert_eq!(Supervisor::new(2).on_end::<&str>(Ended::Signal), Some(Ok(())));

    assert_eq!(run_outcome(Ok(()), Err("drain")), Err("drain"));
    assert_eq!(run_outcome(Err("stop"), Err("drain")), Err("stop"));
    assert_eq!(run_outcome::<&str>(Ok(()), Ok(())), Ok(()));
}

fn reader(inputs: &[&str]) -> SinkConfig {
    SinkConfig::Kafka(KafkaSinkConfig {
        inputs: inputs.iter().map(|input| input.to_string()).collect(),
        brokers: String::new(),
        topic: String::new(),
        delivery_timeout_ms: 1,
        buffer_capacity: 1,
        batch_max_events: 1,
        batch_max_bytes: 1,
        batch_linger_ms: 1,
        max_concurrent_writes: 1,
        retry_max_attempts: 1,
        retry_initial_backoff_ms: 1,
        retry_max_backoff_ms: 1,
        acks: String::new(),
        enable_idempotence: false,
        compression_type: String::new(),
        producer_linger_ms: 1,
        producer_batch_num_messages: 1,
        queue_buffering_max_messages: 1,
        queue_buffering_max_kbytes: 1,
        client_config: IdMap::new(),
    })
}

#[test]
fn a_source_feeds_the_sinks_that_name_it() {
    let mut sinks = IdMap::new();
    sinks.insert("c".to_owned(), reader(&["x", "y", "x"]));
    sinks.insert("a".to_owned(), reader(&["y"]));
    sinks.insert("b".to_owned(), reader(&["x"]));
    let config = Config {
        sources: IdMap::new(),
        sinks,
        metrics: MetricsConfig { log_interval_seconds: 0, listen: None },
    };
    assert_eq!(destinations_of(&config, "x"), vec![1, 2]);
    assert_eq!(destinations_of(&config, "y"), vec![0, 2]);
    assert_eq!(destinations_of(&config, "z"), Vec::<usize>::new());
}
