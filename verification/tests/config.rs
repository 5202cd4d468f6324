//! Validation, defaults and resolved settings.

use rustper::config::{
    default_acks, default_batch_linger_ms, default_batch_size, default_buffer_capacity,
    default_clickhouse_sink_linger_ms, default_compression_type, default_database,
    default_delivery_timeout_ms, default_kafka_sink_linger_ms, default_log_interval_seconds,
    default_max_concurrent_writes, default_max_in_flight_batches, default_max_in_flight_bytes,
    default_max_poll_interval_ms, default_producer_batch_num_messages, default_producer_linger_ms,
    default_queue_buffering_max_kbytes, default_queue_buffering_max_messages,
    default_queued_max_messages_kbytes, default_queued_min_messages, default_retry_initial_backoff_ms,
    default_retry_max_attempts, default_retry_max_backoff_ms, default_session_timeout_ms,
    default_sink_batch_bytes, default_sink_batch_events, default_true, ClickhouseSchema,
    ClickhouseSinkConfig, Config, ConfigError, KafkaSinkConfig, KafkaSourceConfig, MetricsConfig,
    SinkConfig, SourceConfig,
};
use rustper::idmap::IdMap;
use rustper::sink::clickhouse::json::MetadataColumns;

fn kafka_source() -> KafkaSourceConfig {
    KafkaSourceConfig {
        brokers: "localhost:9092".to_owned(),
        group_id: "router".to_owned(),
        topics: vec!["input".to_owned()],
        session_timeout_ms: default_session_timeout_ms(),
        batch_size: default_batch_size(),
        batch_linger_ms: default_batch_linger_ms(),
        max_in_flight_batches: default_max_in_flight_batches(),
        max_in_flight_bytes: default_max_in_flight_bytes(),
        queued_max_messages_kbytes: default_queued_max_messages_kbytes(),
        queued_min_messages: default_queued_min_messages(),
        max_poll_interval_ms: default_max_poll_interval_ms(),
        client_config: IdMap::new(),
    }
}

fn kafka_sink() -> KafkaSinkConfig {
    KafkaSinkConfig {
        inputs: vec!["in".to_owned()],
        brokers: "localhost:9092".to_owned(),
        topic: "output".to_owned(),
        delivery_timeout_ms: default_delivery_timeout_ms(),
        buffer_capacity: default_buffer_capacity(),
        batch_max_events: default_sink_batch_events(),
        batch_max_bytes: default_sink_batch_bytes(),
        batch_linger_ms: default_kafka_sink_linger_ms(),
        max_concurrent_writes: default_max_concurrent_writes(),
        retry_max_attempts: default_retry_max_attempts(),
        retry_initial_backoff_ms: default_retry_initial_backoff_ms(),
        retry_max_backoff_ms: default_retry_max_backoff_ms(),
        acks: default_acks(),
        enable_idempotence: default_true(),
        compression_type: default_compression_type(),
        producer_linger_ms: default_producer_linger_ms(),
        producer_batch_num_messages: default_producer_batch_num_messages(),
        queue_buffering_max_messages: default_queue_buffering_max_messages(),
        queue_buffering_max_kbytes: default_queue_buffering_max_kbytes(),
        client_config: IdMap::new(),
    }
}

fn clickhouse_sink() -> ClickhouseSinkConfig {
    ClickhouseSinkConfig {
        inputs: vec!["in".to_owned()],
        endpoint: "http://localhost:8123".to_owned(),
        database: default_database(),
        table: "events".to_owned(),
        user: "default".to_owned(),
        password: String::new(),
        schema: ClickhouseSchema::Event,
        metadata_columns: MetadataColumns::default(),
        allow_errors_num: 0,
        allow_errors_ratio: None,
        buffer_capacity: default_buffer_capacity(),
        batch_max_events: default_sink_batch_events(),
        batch_max_bytes: default_sink_batch_bytes(),
        batch_linger_ms: default_clickhouse_sink_linger_ms(),
        max_concurrent_writes: 0,
        retry_max_attempts: 0,
        retry_initial_backoff_ms: default_retry_initial_backoff_ms(),
        retry_max_backoff_ms: default_retry_max_backoff_ms(),
    }
}

fn with(source: KafkaSourceConfig, sink: SinkConfig) -> Config {
    let mut sources = IdMap::new();
    sources.insert("in".to_owned(), SourceConfig::Kafka(source));
    let mut sinks = IdMap::new();
    sinks.insert("out".to_owned(), sink);
    Config {
        sources,
        sinks,
        metrics: MetricsConfig {
            log_interval_seconds: default_log_interval_seconds(),
            listen: None,
        },
    }
}

fn with_sink(sink: KafkaSinkConfig) -> Config {
    with(kafka_source(), SinkConfig::Kafka(sink))
}

fn with_source(source: KafkaSourceConfig) -> Config {
    with(source, SinkConfig::Kafka(kafka_sink()))
}

fn minimal() -> Config {
    with_sink(kafka_sink())
}

fn message(config: &Config) -> String {
    config.validate().unwrap_err().message()
}

#[test]
fn parses_vector_style_topology() {
    let config = minimal();
    config.validate().unwrap();
    assert_eq!(config.sources.len(), 1);
    assert_eq!(config.sinks.get("out").unwrap().buffer_capacity(), 32);
}

#[test]
fn delivery_defaults_preserve_sequential_ordering() {
    let settings = minimal().sinks.get("out").unwrap().runtime_settings();
    assert_eq!(settings.max_concurrent_writes, 1);
    assert_eq!(settings.retry_max_attempts, 5);
}

#[test]
fn librdkafka_knobs_are_configurable() {
    let mut client_config = IdMap::new();
    client_config.insert("socket.nagle.disable".to_owned(), "true".to_owned());
    let config = with_sink(KafkaSinkConfig {
        acks: "1".to_owned(),
        enable_idempotence: false,
        max_concurrent_writes: 4,
        queue_buffering_max_kbytes: 65_536,
        client_config,
        ..kafka_sink()
    });
    config.validate().unwrap();
    let SinkConfig::Kafka(sink) = config.sinks.get("out").unwrap() else {
        panic!("expected a Kafka sink");
    };
    assert_eq!(sink.acks, "1");
    assert!(!sink.enable_idempotence);
    assert_eq!(sink.queue_buffering_max_kbytes, 65_536);
    assert_eq!(sink.client_config.get("socket.nagle.disable").unwrap(), "true");
    assert_eq!(
        config.sinks.get("out").unwrap().runtime_settings().max_concurrent_writes,
        4
    );
}

#[test]
fn backwards_backoff_window_is_rejected() {
    let config = with_sink(KafkaSinkConfig { retry_initial_backoff_ms: 9000, ..kafka_sink() });
    assert!(config.validate().is_err());
    assert_eq!(
        message(&config),
        "sink \"out\" retry_initial_backoff_ms must be <= retry_max_backoff_ms"
    );
}

#[test]
fn every_default_has_its_documented_value() {
    assert_eq!(default_session_timeout_ms(), 45_000);
    assert_eq!(default_batch_size(), 1_000);
    assert_eq!(default_batch_linger_ms(), 5);
    assert_eq!(default_max_in_flight_batches(), 8);
    assert_eq!(default_max_in_flight_bytes(), 268_435_456);
    assert_eq!(default_queued_max_messages_kbytes(), 65_536);
    assert_eq!(default_queued_min_messages(), 100_000);
    assert_eq!(default_max_poll_interval_ms(), 300_000);
    assert_eq!(default_delivery_timeout_ms(), 30_000);
    assert_eq!(default_buffer_capacity(), 32);
    assert_eq!(default_sink_batch_events(), 10_000);
    assert_eq!(default_sink_batch_bytes(), 16_777_216);
    assert_eq!(default_kafka_sink_linger_ms(), 5);
    assert_eq!(default_clickhouse_sink_linger_ms(), 50);
    assert_eq!(default_database(), "default");
    assert_eq!(default_acks(), "all");
    assert!(default_true());
    assert_eq!(default_compression_type(), "lz4");
    assert_eq!(default_producer_linger_ms(), 5);
    assert_eq!(default_producer_batch_num_messages(), 10_000);
    assert_eq!(default_queue_buffering_max_messages(), 100_000);
    assert_eq!(default_queue_buffering_max_kbytes(), 1_048_576);
    assert_eq!(default_max_concurrent_writes(), 1);
    assert_eq!(default_retry_max_attempts(), 5);
    assert_eq!(default_retry_initial_backoff_ms(), 100);
    assert_eq!(default_retry_max_backoff_ms(), 5_000);
    assert_eq!(default_log_interval_seconds(), 10);
}

#[test]
fn each_problem_is_reported_in_its_own_words() {
    let mut config = minimal();
    config.sources = IdMap::new();
    assert_eq!(message(&config), "at least one source is required");
    assert!(matches!(config.validate(), Err(ConfigError::NoSources)));

    let mut config = minimal();
    config.sinks = IdMap::new();
    assert_eq!(message(&config), "at least one sink is required");

    let none = with_sink(KafkaSinkConfig { inputs: Vec::new(), ..kafka_sink() });
    assert_eq!(message(&none), "sink \"out\" has no inputs");

    let capacity = with_sink(KafkaSinkConfig { buffer_capacity: 0, ..kafka_sink() });
    assert_eq!(message(&capacity), "sink \"out\" buffer_capacity must be > 0");

    let events = with_sink(KafkaSinkConfig { batch_max_events: 0, ..kafka_sink() });
    assert_eq!(message(&events), "sink \"out\" batch limits must be > 0");
    let bytes = with_sink(KafkaSinkConfig { batch_max_bytes: 0, ..kafka_sink() });
    assert_eq!(message(&bytes), "sink \"out\" batch limits must be > 0");

    let unknown = with_sink(KafkaSinkConfig {
        inputs: vec!["in".to_owned(), "no\"where".to_owned()],
        ..kafka_sink()
    });
    assert_eq!(
        message(&unknown),
        "sink \"out\" references unknown input \"no\\\"where\""
    );

    let topics = with_source(KafkaSourceConfig { topics: Vec::new(), ..kafka_source() });
    assert_eq!(message(&topics), "source \"in\" has no topics");

    let limits = "source \"in\" batch and in-flight limits must be > 0";
    let size = with_source(KafkaSourceConfig { batch_size: 0, ..kafka_source() });
    assert_eq!(message(&size), limits);
    let window = with_source(KafkaSourceConfig { max_in_flight_batches: 0, ..kafka_source() });
    assert_eq!(message(&window), limits);
    let budget = with_source(KafkaSourceConfig { max_in_flight_bytes: 0, ..kafka_source() });
    assert_eq!(message(&budget), limits);
}

#[test]
fn the_first_sink_in_id_order_is_reported_before_any_source() {
    let mut config = with_source(KafkaSourceConfig { topics: Vec::new(), ..kafka_source() });
    config.sinks.insert(
        "b".to_owned(),
        SinkConfig::Kafka(KafkaSinkConfig { buffer_capacity: 0, ..kafka_sink() }),
    );
    config.sinks.insert(
        "a".to_owned(),
        SinkConfig::Kafka(KafkaSinkConfig { inputs: Vec::new(), ..kafka_sink() }),
    );
    assert_eq!(message(&config), "sink \"a\" has no inputs");
}

#[test]
fn clickhouse_sinks_resolve_like_kafka_sinks() {
    let config = with(kafka_source(), SinkConfig::Clickhouse(clickhouse_sink()));
    config.validate().unwrap();
    let sink = config.sinks.get("out").unwrap();
    assert_eq!(sink.inputs().len(), 1);
    assert_eq!(sink.batch_limits(), (10_000, 16_777_216));
    let settings = sink.runtime_settings();
    // There is always at least one write slot and one attempt.
    assert_eq!(settings.max_concurrent_writes, 1);
    assert_eq!(settings.retry_max_attempts, 1);
    assert_eq!(settings.retry_initial_backoff_ms, 100);
    assert_eq!(settings.retry_max_backoff_ms, 5_000);
    assert!(sink.reads_from("in"));
    assert!(!sink.reads_from("out"));
    assert_eq!(config.metrics.log_interval(), 10);
}

#[test]
fn ids_are_walked_in_order_and_later_values_win() {
    let mut map: IdMap<u32> = IdMap::new();
    for (id, value) in [("m", 1), ("b", 2), ("z", 3), ("bb", 4), ("m", 5), ("", 6)] {
        map.insert(id.to_owned(), value);
    }
    let walked: Vec<(&str, u32)> = (0..map.len()).map(|i| (map.id_at(i), *map.value_at(i))).collect();
    assert_eq!(walked, vec![("", 6), ("b", 2), ("bb", 4), ("m", 5), ("z", 3)]);
    assert_eq!(map.get("bb"), Some(&4));
    assert_eq!(map.get("c"), None);
    *map.get_mut("z").unwrap() = 30;
    assert!(map.get_mut("y").is_none());
    assert_eq!(map.clone().get("z"), Some(&30));
    assert!(map.contains(""));
    assert!(!map.is_empty());
}
