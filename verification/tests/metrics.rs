//! Counters, rates and the exposition.

use rustper::metrics::server::{route, Reporter};
use rustper::metrics::{sink_series, source_series, Metrics, Rate};

const SECOND: u64 = 1_000_000_000;

fn metrics() -> Metrics {
    Metrics::new(&["src"], &["a", "b"])
}

fn per_second(rate: Rate) -> f64 {
    if rate.elapsed_ns == 0 {
        0.0
    } else {
        rate.count as f64 / std::time::Duration::from_nanos(rate.elapsed_ns).as_secs_f64()
    }
}

#[test]
fn rates_come_from_the_delta_not_the_running_total() {
    let mut metrics = metrics();
    // A slow first window followed by a fast one. A cumulative average would
    // blend them; the interval rate must report only the second.
    metrics.source_mut("src").events_in = 1_000;
    let first = metrics.snapshot(0);
    metrics.source_mut("src").events_in = 11_000;
    let mut second = metrics.snapshot(0);
    second.taken_at = first.taken_at + 2 * SECOND;

    let rates = second.rates_since(&first);
    let source = rates.sources.get("src").unwrap();
    assert_eq!(per_second(source.events_per_second), 5_000.0);
    assert_eq!(source.events_total, 11_000);
}

#[test]
fn a_zero_length_interval_reports_zero_instead_of_dividing_by_zero() {
    let mut metrics = metrics();
    let first = metrics.snapshot(7);
    metrics.source_mut("src").events_in = 500;
    let mut second = metrics.snapshot(9);
    second.taken_at = first.taken_at;

    let rates = second.rates_since(&first);
    assert_eq!(per_second(rates.sources.get("src").unwrap().events_per_second), 0.0);
    assert_eq!(rates.sources.get("src").unwrap().events_per_second.count, 0);
    assert_eq!(rates.elapsed_ns, 0);
}

#[test]
fn snapshots_passed_in_the_wrong_order_do_not_panic() {
    let mut metrics = metrics();
    metrics.sink_mut("a").events_out = 10;
    let later = metrics.snapshot(0);
    metrics.sink_mut("a").events_out = 0;
    let mut earlier = metrics.snapshot(0);
    earlier.taken_at = later.taken_at + SECOND;

    // A difference that would be negative counts as none.
    assert_eq!(
        per_second(earlier.rates_since(&later).sinks.get("a").unwrap().events_per_second),
        0.0
    );
}

#[test]
fn dropped_rows_are_reported_separately_from_written_ones() {
    let mut metrics = metrics();
    let first = metrics.snapshot(0);
    metrics.sink_mut("a").events_out = 90;
    metrics.sink_mut("a").events_dropped = 10;
    let mut second = metrics.snapshot(0);
    second.taken_at = first.taken_at + SECOND;

    let rates = second.rates_since(&first);
    let sink = rates.sinks.get("a").unwrap();
    assert_eq!(per_second(sink.events_per_second), 90.0);
    assert_eq!(per_second(sink.dropped_per_second), 10.0);
    assert_eq!(sink.dropped_total, 10);
}

#[test]
fn prometheus_output_labels_every_component() {
    let mut metrics = metrics();
    metrics.source_mut("src").events_in = 7;
    metrics.sink_mut("b").events_dropped = 3;
    let text = metrics.render_prometheus();

    assert!(text.contains("rustper_source_events_total{source=\"src\"} 7"), "{text}");
    assert!(text.contains("rustper_sink_events_dropped_total{sink=\"b\"} 3"), "{text}");
    assert!(text.contains("rustper_sink_events_dropped_total{sink=\"a\"} 0"), "{text}");
    // Every series needs its HELP and TYPE lines to be valid exposition.
    for series in source_series() {
        assert!(
            text.contains(&format!("# TYPE {} ", series.name())),
            "missing TYPE for {}",
            series.name()
        );
    }
    for series in sink_series() {
        assert!(
            text.contains(&format!("# HELP {} ", series.name())),
            "missing HELP for {}",
            series.name()
        );
    }
}

#[test]
fn every_exposed_series_name_is_unique() {
    let mut names: Vec<&str> = source_series()
        .iter()
        .map(|s| s.name())
        .chain(sink_series().iter().map(|s| s.name()))
        .collect();
    let total = names.len();
    names.sort_unstable();
    names.dedup();
    assert_eq!(names.len(), total, "duplicate metric name would break scraping");
    assert_eq!(total, 13);
}

#[test]
fn the_endpoint_serves_scrapeable_metrics() {
    let mut metrics = Metrics::new(&["kafka_in"], &["output_a"]);
    metrics.source_mut("kafka_in").events_in = 1234;
    metrics.sink_mut("output_a").events_dropped = 7;

    let reply = route(&metrics, "GET", "/metrics");
    assert_eq!(reply.status, 200);
    assert_eq!(reply.content_type, Some("text/plain; version=0.0.4; charset=utf-8"));
    assert!(reply.content_type.unwrap().contains("text/plain"));
    assert!(reply.body.contains("rustper_source_events_total{source=\"kafka_in\"} 1234"));
    assert!(reply.body.contains("rustper_sink_events_dropped_total{sink=\"output_a\"} 7"));

    let missing = route(&metrics, "GET", "/nope");
    assert_eq!(missing.status, 404);
    assert_eq!(missing.content_type, None);
    assert_eq!(missing.body, "try /metrics\n");
    assert_eq!(route(&metrics, "POST", "/metrics").status, 404);
}

#[test]
fn the_whole_exposition_is_as_written() {
    let mut metrics = Metrics::new(&["s"], &[]);
    metrics.source_mut("s").in_flight_bytes = 18_446_744_073_709_551_615;
    let text = metrics.render_prometheus();
    let mut lines = text.lines();
    assert_eq!(
        lines.next(),
        Some("# HELP rustper_source_events_total Events consumed and committed.")
    );
    assert_eq!(lines.next(), Some("# TYPE rustper_source_events_total counter"));
    assert_eq!(lines.next(), Some("rustper_source_events_total{source=\"s\"} 0"));
    assert!(text.contains(
        "# HELP rustper_source_in_flight_bytes Bytes held by unacknowledged batches.\n\
         # TYPE rustper_source_in_flight_bytes gauge\n\
         rustper_source_in_flight_bytes{source=\"s\"} 18446744073709551615\n"
    ));
    assert!(text.ends_with(
        "# HELP rustper_sink_queue_depth Envelopes waiting in the sink queue.\n\
         # TYPE rustper_sink_queue_depth gauge\n"
    ));
    // Two lines of comment per series, and one line per series and component.
    assert_eq!(text.lines().count(), 13 * 2 + 7);
}

#[test]
fn a_component_unknown_to_the_earlier_snapshot_starts_from_zero() {
    let mut now = Metrics::new(&["new"], &[]);
    now.source_mut("new").bytes_in = 40;
    let was = Metrics::new(&["old"], &[]);
    let rates = now.snapshot(4 * SECOND).rates_since(&was.snapshot(0));
    assert_eq!(rates.elapsed_ns, 4 * SECOND);
    assert_eq!(per_second(rates.sources.get("new").unwrap().bytes_per_second), 10.0);
    assert!(rates.sources.get("old").is_none());
}

#[test]
fn each_report_is_relative_to_the_one_before() {
    let mut metrics = metrics();
    assert!(Reporter::start(metrics.snapshot(0), 0).is_none(), "zero disables the reporter");
    let mut reporter = Reporter::start(metrics.snapshot(0), 10).unwrap();
    metrics.source_mut("src").events_in = 100;
    let first = reporter.tick(metrics.snapshot(10 * SECOND));
    assert_eq!(first.sources.get("src").unwrap().events_per_second.count, 100);
    metrics.source_mut("src").events_in = 130;
    let second = reporter.tick(metrics.snapshot(20 * SECOND));
    assert_eq!(second.sources.get("src").unwrap().events_per_second.count, 30);
    assert_eq!(second.elapsed_ns, 10 * SECOND);
}

#[test]
fn registering_an_id_twice_keeps_one_component() {
    let mut metrics = Metrics::new(&["b", "a", "b"], &["x"]);
    metrics.source_mut("b").commits = 5;
    assert_eq!(metrics.source("b").commits, 5);
    assert_eq!(metrics.source("a").commits, 0);
    assert_eq!(metrics.sink("x").retries, 0);
    let snapshot = metrics.snapshot(0);
    assert_eq!(snapshot.sources.len(), 2);
    assert_eq!(snapshot.sources.id_at(0), "a");
    assert_eq!(snapshot.sources.value_at(1).commits, 5);
}

#[test]
fn ids_are_escaped_in_labels() {
    let metrics = Metrics::new(&["s"], &["a\"b", "back\\slash", "two\nlines"]);
    let text = metrics.render_prometheus();
    assert!(text.contains("rustper_sink_events_total{sink=\"a\\\"b\"} 0\n"));
    assert!(text.contains("rustper_sink_events_total{sink=\"back\\\\slash\"} 0\n"));
    assert!(text.contains("rustper_sink_events_total{sink=\"two\\nlines\"} 0\n"));
    assert!(text.contains("rustper_source_events_total{source=\"s\"} 0\n"));
}
