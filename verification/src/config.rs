//! The router's configuration: components by id, their defaults, and what makes
//! a topology valid.

use crate::idmap::IdMap;
use crate::sink::clickhouse::json::MetadataColumns;
use crate::text;
use vstd::prelude::*;

verus! {

#[derive(Debug, Clone)]
pub struct Config {
    pub sources: IdMap<SourceConfig>,
    pub sinks: IdMap<SinkConfig>,
    pub metrics: MetricsConfig,
}

/// How the counters are reported.
#[derive(Debug, Clone)]
pub struct MetricsConfig {
    /// Seconds between two log reports; zero disables them.
    pub log_interval_seconds: u64,
    /// The address of the Prometheus listener; absent means no listener at all.
    pub listen: Option<String>,
}

#[derive(Debug, Clone)]
pub enum SourceConfig {
    Kafka(KafkaSourceConfig),
}

#[derive(Debug, Clone)]
pub struct KafkaSourceConfig {
    pub brokers: String,
    pub group_id: String,
    pub topics: Vec<String>,
    pub session_timeout_ms: u64,
    pub batch_size: usize,
    pub batch_linger_ms: u64,
    pub max_in_flight_batches: usize,
    pub max_in_flight_bytes: usize,
    /// librdkafka `queued.max.messages.kbytes`. This is the consumer-side fetch
    /// buffer and it is charged on top of `max_in_flight_bytes`.
    pub queued_max_messages_kbytes: u64,
    /// librdkafka `queued.min.messages`.
    pub queued_min_messages: u64,
    /// librdkafka `max.poll.interval.ms`. The consumer leaves the group if the
    /// router does not call `recv` within this window.
    pub max_poll_interval_ms: u64,
    /// Escape hatch for any other librdkafka property; applied last.
    pub client_config: IdMap<String>,
}

#[derive(Debug, Clone)]
pub enum SinkConfig {
    Kafka(KafkaSinkConfig),
    Clickhouse(ClickhouseSinkConfig),
}

#[derive(Debug, Clone)]
pub struct KafkaSinkConfig {
    pub inputs: Vec<String>,
    pub brokers: String,
    pub topic: String,
    pub delivery_timeout_ms: u64,
    pub buffer_capacity: usize,
    pub batch_max_events: usize,
    pub batch_max_bytes: usize,
    pub batch_linger_ms: u64,
    /// Batches this sink may have in flight at once.
    ///
    /// Values above 1 let the next batch coalesce while the current write is on
    /// the wire, which is what removes the `1 / (linger + write latency)`
    /// throughput ceiling. It also means batches can reach the destination out
    /// of order, so it stays at 1 unless the topology tolerates that.
    pub max_concurrent_writes: usize,
    /// Total write attempts per batch, including the first.
    pub retry_max_attempts: u32,
    pub retry_initial_backoff_ms: u64,
    pub retry_max_backoff_ms: u64,
    /// librdkafka `acks`. `"all"` is the durable default; `"1"` trades
    /// durability for throughput.
    pub acks: String,
    /// librdkafka `enable.idempotence`. When true librdkafka caps in-flight
    /// requests at 5 and forces `acks=all`, which bounds throughput.
    pub enable_idempotence: bool,
    pub compression_type: String,
    /// librdkafka `linger.ms`, distinct from the router-side `batch_linger_ms`.
    pub producer_linger_ms: u64,
    pub producer_batch_num_messages: u64,
    /// librdkafka `queue.buffering.max.messages`, per sink.
    pub queue_buffering_max_messages: u64,
    /// librdkafka `queue.buffering.max.kbytes`, per sink. The librdkafka
    /// default is 1 GiB, which dwarfs the router's own budgets.
    pub queue_buffering_max_kbytes: u64,
    /// Escape hatch for any other librdkafka property; applied last.
    pub client_config: IdMap<String>,
}

/// What a ClickHouse sink writes.
#[derive(Debug, Clone, Copy, PartialEq, Eq, Structural)]
pub enum ClickhouseSchema {
    /// The built-in seven columns.
    Event,
    /// The payload's own keys, as `JSONEachRow`.
    Json,
}

#[derive(Debug, Clone)]
pub struct ClickhouseSinkConfig {
    pub inputs: Vec<String>,
    pub endpoint: String,
    pub database: String,
    pub table: String,
    pub user: String,
    pub password: String,
    pub schema: ClickhouseSchema,
    /// Which Kafka coordinates a JSON row carries, and under which names.
    pub metadata_columns: MetadataColumns,
    /// Rows ClickHouse may skip per insert; zero leaves its default.
    pub allow_errors_num: u64,
    /// Share of rows ClickHouse may skip per insert, in decimal notation;
    /// absent where no positive share is configured.
    pub allow_errors_ratio: Option<String>,
    pub buffer_capacity: usize,
    pub batch_max_events: usize,
    pub batch_max_bytes: usize,
    pub batch_linger_ms: u64,
    /// Batches this sink may have in flight at once.
    ///
    /// Values above 1 let the next batch coalesce while the current write is on
    /// the wire, which is what removes the `1 / (linger + write latency)`
    /// throughput ceiling. It also means batches can reach the destination out
    /// of order, so it stays at 1 unless the topology tolerates that.
    pub max_concurrent_writes: usize,
    /// Total write attempts per batch, including the first.
    pub retry_max_attempts: u32,
    pub retry_initial_backoff_ms: u64,
    pub retry_max_backoff_ms: u64,
}

/// Delivery behaviour resolved into the values the sink runtime uses.
#[derive(Debug, Clone, Copy, PartialEq, Eq, Structural)]
pub struct DeliverySettings {
    pub max_concurrent_writes: usize,
    pub retry_max_attempts: u32,
    pub retry_initial_backoff_ms: u64,
    pub retry_max_backoff_ms: u64,
}

/// Kafka's own default. A 10 s timeout looks harmless but makes the broker
/// fence the consumer whenever a heartbeat is delayed by a saturated
/// connection, and each rebalance costs seconds of stalled consumption.
pub fn default_session_timeout_ms() -> (value: u64)
    ensures
        value == 45_000,
{
    45_000
}

pub fn default_batch_size() -> (value: usize)
    ensures
        value == 1000,
{
    1000
}

pub fn default_batch_linger_ms() -> (value: u64)
    ensures
        value == 5,
{
    5
}

pub fn default_max_in_flight_batches() -> (value: usize)
    ensures
        value == 8,
{
    8
}

pub fn default_max_in_flight_bytes() -> (value: usize)
    ensures
        value == 268_435_456,
{
    268_435_456
}

pub fn default_queued_max_messages_kbytes() -> (value: u64)
    ensures
        value == 65_536,
{
    65_536
}

pub fn default_queued_min_messages() -> (value: u64)
    ensures
        value == 100_000,
{
    100_000
}

pub fn default_max_poll_interval_ms() -> (value: u64)
    ensures
        value == 300_000,
{
    300_000
}

pub fn default_delivery_timeout_ms() -> (value: u64)
    ensures
        value == 30_000,
{
    30_000
}

pub fn default_buffer_capacity() -> (value: usize)
    ensures
        value == 32,
{
    32
}

pub fn default_sink_batch_events() -> (value: usize)
    ensures
        value == 10_000,
{
    10_000
}

pub fn default_sink_batch_bytes() -> (value: usize)
    ensures
        value == 16_777_216,
{
    16_777_216
}

pub fn default_kafka_sink_linger_ms() -> (value: u64)
    ensures
        value == 5,
{
    5
}

pub fn default_clickhouse_sink_linger_ms() -> (value: u64)
    ensures
        value == 50,
{
    50
}

pub fn default_database() -> (value: String)
    ensures
        value@ == "default"@,
{
    "default".to_owned()
}

pub fn default_acks() -> (value: String)
    ensures
        value@ == "all"@,
{
    "all".to_owned()
}

pub fn default_true() -> (value: bool)
    ensures
        value == true,
{
    true
}

pub fn default_compression_type() -> (value: String)
    ensures
        value@ == "lz4"@,
{
    "lz4".to_owned()
}

pub fn default_producer_linger_ms() -> (value: u64)
    ensures
        value == 5,
{
    5
}

pub fn default_producer_batch_num_messages() -> (value: u64)
    ensures
        value == 10_000,
{
    10_000
}

pub fn default_queue_buffering_max_messages() -> (value: u64)
    ensures
        value == 100_000,
{
    100_000
}

pub fn default_queue_buffering_max_kbytes() -> (value: u64)
    ensures
        value == 1_048_576,
{
    1_048_576
}

pub fn default_max_concurrent_writes() -> (value: usize)
    ensures
        value == 1,
{
    1
}

pub fn default_retry_max_attempts() -> (value: u32)
    ensures
        value == 5,
{
    5
}

pub fn default_retry_initial_backoff_ms() -> (value: u64)
    ensures
        value == 100,
{
    100
}

pub fn default_retry_max_backoff_ms() -> (value: u64)
    ensures
        value == 5000,
{
    5000
}

/// The log reporter is on unless it is switched off.
pub fn default_log_interval_seconds() -> (value: u64)
    ensures
        value == 10,
{
    10
}

/// At least one.
pub open spec fn at_least_one(value: int) -> int {
    if value < 1 {
        1
    } else {
        value
    }
}

fn delivery_settings(
    max_concurrent_writes: usize,
    retry_max_attempts: u32,
    retry_initial_backoff_ms: u64,
    retry_max_backoff_ms: u64,
) -> (settings: DeliverySettings)
    ensures
        settings.max_concurrent_writes == at_least_one(max_concurrent_writes as int),
        settings.retry_max_attempts == at_least_one(retry_max_attempts as int),
        settings.retry_initial_backoff_ms == retry_initial_backoff_ms,
        settings.retry_max_backoff_ms == retry_max_backoff_ms,
{
    DeliverySettings {
        max_concurrent_writes: if max_concurrent_writes < 1 {
            1
        } else {
            max_concurrent_writes
        },
        retry_max_attempts: if retry_max_attempts < 1 {
            1
        } else {
            retry_max_attempts
        },
        retry_initial_backoff_ms,
        retry_max_backoff_ms,
    }
}

impl SinkConfig {
    /// The ids of the sources this sink reads from.
    pub open spec fn input_ids(self) -> Seq<Seq<char>> {
        crate::idmap::texts(
            match self {
                SinkConfig::Kafka(c) => c.inputs@,
                SinkConfig::Clickhouse(c) => c.inputs@,
            },
        )
    }

    /// The capacity of the sink's queue.
    pub open spec fn capacity(self) -> usize {
        match self {
            SinkConfig::Kafka(c) => c.buffer_capacity,
            SinkConfig::Clickhouse(c) => c.buffer_capacity,
        }
    }

    /// The sink's batch limits, events first.
    pub open spec fn limits(self) -> (usize, usize) {
        match self {
            SinkConfig::Kafka(c) => (c.batch_max_events, c.batch_max_bytes),
            SinkConfig::Clickhouse(c) => (c.batch_max_events, c.batch_max_bytes),
        }
    }

    /// The configured delivery fields: concurrent writes, attempts, initial and
    /// maximal backoff.
    pub open spec fn delivery(self) -> (usize, u32, u64, u64) {
        match self {
            SinkConfig::Kafka(c) => (
                c.max_concurrent_writes,
                c.retry_max_attempts,
                c.retry_initial_backoff_ms,
                c.retry_max_backoff_ms,
            ),
            SinkConfig::Clickhouse(c) => (
                c.max_concurrent_writes,
                c.retry_max_attempts,
                c.retry_initial_backoff_ms,
                c.retry_max_backoff_ms,
            ),
        }
    }

    pub fn inputs(&self) -> (inputs: &[String])
        ensures
            crate::idmap::texts(inputs@) == self.input_ids(),
            self matches SinkConfig::Kafka(c) ==> inputs@ == c.inputs@,
            self matches SinkConfig::Clickhouse(c) ==> inputs@ == c.inputs@,
    {
        match self {
            Self::Kafka(c) => c.inputs.as_slice(),
            Self::Clickhouse(c) => c.inputs.as_slice(),
        }
    }

    pub fn buffer_capacity(&self) -> (capacity: usize)
        ensures
            capacity == self.capacity(),
            self matches SinkConfig::Kafka(c) ==> capacity == c.buffer_capacity,
            self matches SinkConfig::Clickhouse(c) ==> capacity == c.buffer_capacity,
    {
        match self {
            Self::Kafka(c) => c.buffer_capacity,
            Self::Clickhouse(c) => c.buffer_capacity,
        }
    }

    /// Returns the `(max_events, max_bytes)` batch limits for this sink.
    pub fn batch_limits(&self) -> (limits: (usize, usize))
        ensures
            limits == self.limits(),
            self matches SinkConfig::Kafka(c) ==> limits.0 == c.batch_max_events && limits.1
                == c.batch_max_bytes,
            self matches SinkConfig::Clickhouse(c) ==> limits.0 == c.batch_max_events && limits.1
                == c.batch_max_bytes,
    {
        match self {
            Self::Kafka(c) => (c.batch_max_events, c.batch_max_bytes),
            Self::Clickhouse(c) => (c.batch_max_events, c.batch_max_bytes),
        }
    }

    /// The delivery fields, with at least one write slot and one attempt.
    pub fn runtime_settings(&self) -> (settings: DeliverySettings)
        ensures
            settings.max_concurrent_writes == at_least_one(self.delivery().0 as int),
            settings.retry_max_attempts == at_least_one(self.delivery().1 as int),
            settings.retry_initial_backoff_ms == self.delivery().2,
            settings.retry_max_backoff_ms == self.delivery().3,
            self matches SinkConfig::Kafka(c) ==> {
                &&& settings.max_concurrent_writes >= 1 && settings.retry_max_attempts >= 1
                &&& c.max_concurrent_writes >= 1 ==> settings.max_concurrent_writes
                    == c.max_concurrent_writes
                &&& c.max_concurrent_writes == 0 ==> settings.max_concurrent_writes == 1
                &&& c.retry_max_attempts >= 1 ==> settings.retry_max_attempts
                    == c.retry_max_attempts
                &&& c.retry_max_attempts == 0 ==> settings.retry_max_attempts == 1
                &&& settings.retry_initial_backoff_ms == c.retry_initial_backoff_ms
                &&& settings.retry_max_backoff_ms == c.retry_max_backoff_ms
            },
            self matches SinkConfig::Clickhouse(c) ==> {
                &&& settings.max_concurrent_writes >= 1 && settings.retry_max_attempts >= 1
                &&& c.max_concurrent_writes >= 1 ==> settings.max_concurrent_writes
                    == c.max_concurrent_writes
                &&& c.max_concurrent_writes == 0 ==> settings.max_concurrent_writes == 1
                &&& c.retry_max_attempts >= 1 ==> settings.retry_max_attempts
                    == c.retry_max_attempts
                &&& c.retry_max_attempts == 0 ==> settings.retry_max_attempts == 1
                &&& settings.retry_initial_backoff_ms == c.retry_initial_backoff_ms
                &&& settings.retry_max_backoff_ms == c.retry_max_backoff_ms
            },
    {
        match self {
            Self::Kafka(c) => delivery_settings(
                c.max_concurrent_writes,
                c.retry_max_attempts,
                c.retry_initial_backoff_ms,
                c.retry_max_backoff_ms,
            ),
            Self::Clickhouse(c) => delivery_settings(
                c.max_concurrent_writes,
                c.retry_max_attempts,
                c.retry_initial_backoff_ms,
                c.retry_max_backoff_ms,
            ),
        }
    }

    /// Whether `source` is one of the sink's inputs.
    pub fn reads_from(&self, source: &str) -> (reads: bool)
        ensures
            reads == self.input_ids().contains(source@),
            self matches SinkConfig::Kafka(c) ==> (reads <==> exists|i: int|
                0 <= i < c.inputs@.len() && (#[trigger] c.inputs@[i])@ == source@),
            self matches SinkConfig::Clickhouse(c) ==> (reads <==> exists|i: int|
                0 <= i < c.inputs@.len() && (#[trigger] c.inputs@[i])@ == source@),
    {
        let inputs = self.inputs();
        let mut i: usize = 0;
        while i < inputs.len()
            invariant
                i <= inputs@.len(),
                crate::idmap::texts(inputs@) == self.input_ids(),
                self matches SinkConfig::Kafka(c) ==> inputs@ == c.inputs@,
                self matches SinkConfig::Clickhouse(c) ==> inputs@ == c.inputs@,
                forall|j: int| 0 <= j < i ==> self.input_ids()[j] != source@,
                forall|j: int| 0 <= j < i ==> (#[trigger] inputs@[j])@ != source@,
            decreases inputs@.len() - i,
        {
            assert(self.input_ids()[i as int] == inputs@[i as int]@);
            if text::same_text(inputs[i].as_str(), source) {
                return true;
            }
            i += 1;
        }
        false
    }
}

impl MetricsConfig {
    /// Seconds between two log reports; zero disables them.
    pub fn log_interval(&self) -> (seconds: u64)
        ensures
            seconds == self.log_interval_seconds,
    {
        self.log_interval_seconds
    }
}

/// Why a configuration is refused.
#[derive(Debug, Clone)]
pub enum ConfigError {
    NoSources,
    NoSinks,
    NoInputs { sink: String },
    NoCapacity { sink: String },
    NoBatchLimit { sink: String },
    BackwardsBackoff { sink: String },
    UnknownInput { sink: String, input: String },
    NoTopics { source: String },
    NoSourceLimit { source: String },
}

/// What a [`ConfigError`] says.
pub ghost enum ConfigProblem {
    NoSources,
    NoSinks,
    NoInputs { sink: Seq<char> },
    NoCapacity { sink: Seq<char> },
    NoBatchLimit { sink: Seq<char> },
    BackwardsBackoff { sink: Seq<char> },
    UnknownInput { sink: Seq<char>, input: Seq<char> },
    NoTopics { source: Seq<char> },
    NoSourceLimit { source: Seq<char> },
}

impl View for ConfigError {
    type V = ConfigProblem;

    open spec fn view(&self) -> ConfigProblem {
        match self {
            ConfigError::NoSources => ConfigProblem::NoSources,
            ConfigError::NoSinks => ConfigProblem::NoSinks,
            ConfigError::NoInputs { sink } => ConfigProblem::NoInputs { sink: sink@ },
            ConfigError::NoCapacity { sink } => ConfigProblem::NoCapacity { sink: sink@ },
            ConfigError::NoBatchLimit { sink } => ConfigProblem::NoBatchLimit { sink: sink@ },
            ConfigError::BackwardsBackoff { sink } => ConfigProblem::BackwardsBackoff {
                sink: sink@,
            },
            ConfigError::UnknownInput { sink, input } => ConfigProblem::UnknownInput {
                sink: sink@,
                input: input@,
            },
            ConfigError::NoTopics { source } => ConfigProblem::NoTopics { source: source@ },
            ConfigError::NoSourceLimit { source } => ConfigProblem::NoSourceLimit {
                source: source@,
            },
        }
    }
}

/// The first of `inputs`, from position `from` on, that names no source.
pub open spec fn unknown_input(
    inputs: Seq<Seq<char>>,
    sources: Map<Seq<char>, SourceConfig>,
    from: int,
) -> Option<Seq<char>>
    decreases inputs.len() - from,
{
    if from < 0 || from >= inputs.len() {
        None
    } else if !sources.contains_key(inputs[from]) {
        Some(inputs[from])
    } else {
        unknown_input(inputs, sources, from + 1)
    }
}

/// What is wrong with one sink, if anything.
pub open spec fn sink_problem(
    sources: Map<Seq<char>, SourceConfig>,
    id: Seq<char>,
    sink: SinkConfig,
) -> Option<ConfigProblem> {
    if sink.input_ids().len() == 0 {
        Some(ConfigProblem::NoInputs { sink: id })
    } else if sink.capacity() == 0 {
        Some(ConfigProblem::NoCapacity { sink: id })
    } else if sink.limits().0 == 0 || sink.limits().1 == 0 {
        Some(ConfigProblem::NoBatchLimit { sink: id })
    } else if sink.delivery().2 > sink.delivery().3 {
        Some(ConfigProblem::BackwardsBackoff { sink: id })
    } else {
        match unknown_input(sink.input_ids(), sources, 0) {
            Some(input) => Some(ConfigProblem::UnknownInput { sink: id, input }),
            None => None,
        }
    }
}

/// What is wrong with one source, if anything.
pub open spec fn source_problem(id: Seq<char>, source: SourceConfig) -> Option<ConfigProblem> {
    match source {
        SourceConfig::Kafka(kafka) => {
            if kafka.topics@.len() == 0 {
                Some(ConfigProblem::NoTopics { source: id })
            } else if kafka.batch_size == 0 || kafka.max_in_flight_batches == 0
                || kafka.max_in_flight_bytes == 0 {
                Some(ConfigProblem::NoSourceLimit { source: id })
            } else {
                None
            }
        },
    }
}

/// The first problem among the sinks from position `from` on, in id order.
pub open spec fn sinks_problem(config: Config, from: int) -> Option<ConfigProblem>
    decreases config.sinks.ids().len() - from,
{
    let ids = config.sinks.ids();
    if from < 0 || from >= ids.len() {
        None
    } else {
        match sink_problem(config.sources@, ids[from], config.sinks@[ids[from]]) {
            Some(problem) => Some(problem),
            None => sinks_problem(config, from + 1),
        }
    }
}

/// The first problem among the sources from position `from` on, in id order.
pub open spec fn sources_problem(config: Config, from: int) -> Option<ConfigProblem>
    decreases config.sources.ids().len() - from,
{
    let ids = config.sources.ids();
    if from < 0 || from >= ids.len() {
        None
    } else {
        match source_problem(ids[from], config.sources@[ids[from]]) {
            Some(problem) => Some(problem),
            None => sources_problem(config, from + 1),
        }
    }
}

/// The first problem of a configuration, sinks before sources.
pub open spec fn config_problem(config: Config) -> Option<ConfigProblem> {
    if config.sources.ids().len() == 0 {
        Some(ConfigProblem::NoSources)
    } else if config.sinks.ids().len() == 0 {
        Some(ConfigProblem::NoSinks)
    } else {
        match sinks_problem(config, 0) {
            Some(problem) => Some(problem),
            None => sources_problem(config, 0),
        }
    }
}

impl Config {
    /// Refuses a topology that cannot run. Sinks and sources are looked at in
    /// the order of their ids, and the first problem found is the one reported.
    pub fn validate(&self) -> (checked: Result<(), ConfigError>)
        ensures
            match checked {
                Ok(()) => config_problem(*self) is None,
                Err(error) => config_problem(*self) == Some(error@),
            },
    {
        if self.sources.is_empty() {
            return Err(ConfigError::NoSources);
        }
        if self.sinks.is_empty() {
            return Err(ConfigError::NoSinks);
        }
        let mut i: usize = 0;
        while i < self.sinks.len()
            invariant
                i <= self.sinks.ids().len(),
                sinks_problem(*self, 0) == sinks_problem(*self, i as int),
                self.sources.ids().len() != 0,
                self.sinks.ids().len() != 0,
            decreases self.sinks.ids().len() - i,
        {
            let id = self.sinks.id_at(i);
            match self.validate_sink(id, self.sinks.value_at(i)) {
                Ok(()) => {},
                Err(error) => {
                    return Err(error);
                },
            }
            i += 1;
        }
        let mut j: usize = 0;
        while j < self.sources.len()
            invariant
                j <= self.sources.ids().len(),
                sinks_problem(*self, 0) is None,
                sources_problem(*self, 0) == sources_problem(*self, j as int),
                self.sources.ids().len() != 0,
                self.sinks.ids().len() != 0,
            decreases self.sources.ids().len() - j,
        {
            let id = self.sources.id_at(j);
            let SourceConfig::Kafka(source) = self.sources.value_at(j);
            if source.topics.is_empty() {
                return Err(ConfigError::NoTopics { source: id.to_owned() });
            }
            if source.batch_size == 0 || source.max_in_flight_batches == 0
                || source.max_in_flight_bytes == 0 {
                return Err(ConfigError::NoSourceLimit { source: id.to_owned() });
            }
            j += 1;
        }
        Ok(())
    }

    fn validate_sink(&self, id: &str, sink: &SinkConfig) -> (checked: Result<(), ConfigError>)
        ensures
            match checked {
                Ok(()) => sink_problem(self.sources@, id@, *sink) is None,
                Err(error) => sink_problem(self.sources@, id@, *sink) == Some(error@),
            },
    {
        let inputs = sink.inputs();
        if inputs.is_empty() {
            return Err(ConfigError::NoInputs { sink: id.to_owned() });
        }
        if sink.buffer_capacity() == 0 {
            return Err(ConfigError::NoCapacity { sink: id.to_owned() });
        }
        let (max_events, max_bytes) = sink.batch_limits();
        if max_events == 0 || max_bytes == 0 {
            return Err(ConfigError::NoBatchLimit { sink: id.to_owned() });
        }
        let delivery = sink.runtime_settings();
        if delivery.retry_initial_backoff_ms > delivery.retry_max_backoff_ms {
            return Err(ConfigError::BackwardsBackoff { sink: id.to_owned() });
        }
        let mut i: usize = 0;
        while i < inputs.len()
            invariant
                i <= inputs@.len(),
                crate::idmap::texts(inputs@) == sink.input_ids(),
                unknown_input(sink.input_ids(), self.sources@, 0) == unknown_input(
                    sink.input_ids(),
                    self.sources@,
                    i as int,
                ),
                sink.input_ids().len() != 0,
                sink.capacity() != 0,
                sink.limits().0 != 0 && sink.limits().1 != 0,
                sink.delivery().2 <= sink.delivery().3,
            decreases inputs@.len() - i,
        {
            let input = inputs[i].as_str();
            assert(sink.input_ids()[i as int] == input@);
            if !self.sources.contains(input) {
                return Err(
                    ConfigError::UnknownInput { sink: id.to_owned(), input: input.to_owned() },
                );
            }
            i += 1;
        }
        Ok(())
    }
}

/// `text` as a Rust string literal, the way `{:?}` prints it.
pub uninterp spec fn quoted(text: Seq<char>) -> Seq<char>;

/// `<str as Debug>::fmt` through `format!`: the text between double quotes, with
/// the characters that a string literal cannot hold escaped. Which characters
/// those are is not stated.
#[verifier::external_body]
pub(crate) fn debug_text(text: &str) -> (shown: String)
    ensures
        shown@ == quoted(text@),
{
    format!("{text:?}")
}

/// What a problem is reported as.
pub open spec fn problem_message(problem: ConfigProblem) -> Seq<char> {
    match problem {
        ConfigProblem::NoSources => "at least one source is required"@,
        ConfigProblem::NoSinks => "at least one sink is required"@,
        ConfigProblem::NoInputs { sink } => "sink "@ + quoted(sink) + " has no inputs"@,
        ConfigProblem::NoCapacity { sink } => "sink "@ + quoted(sink)
            + " buffer_capacity must be > 0"@,
        ConfigProblem::NoBatchLimit { sink } => "sink "@ + quoted(sink)
            + " batch limits must be > 0"@,
        ConfigProblem::BackwardsBackoff { sink } => "sink "@ + quoted(sink)
            + " retry_initial_backoff_ms must be <= retry_max_backoff_ms"@,
        ConfigProblem::UnknownInput { sink, input } => "sink "@ + quoted(sink)
            + " references unknown input "@ + quoted(input),
        ConfigProblem::NoTopics { source } => "source "@ + quoted(source) + " has no topics"@,
        ConfigProblem::NoSourceLimit { source } => "source "@ + quoted(source)
            + " batch and in-flight limits must be > 0"@,
    }
}

/// The subject's kind, its quoted id, and what is wrong with it.
fn complaint(kind: &str, id: &str, trouble: &str) -> (message: String)
    ensures
        message@ == kind@ + quoted(id@) + trouble@,
{
    let mut message = kind.to_owned();
    message.append(debug_text(id).as_str());
    message.append(trouble);
    message
}

impl ConfigError {
    /// The text reported to the user.
    pub fn message(&self) -> (message: String)
        ensures
            message@ == problem_message(self@),
            match self {
                ConfigError::NoSources => message@ == "at least one source is required"@,
                ConfigError::NoSinks => message@ == "at least one sink is required"@,
                ConfigError::NoInputs { sink } => message@ == "sink "@ + quoted(sink@)
                    + " has no inputs"@,
                ConfigError::NoCapacity { sink } => message@ == "sink "@ + quoted(sink@)
                    + " buffer_capacity must be > 0"@,
                ConfigError::NoBatchLimit { sink } => message@ == "sink "@ + quoted(sink@)
                    + " batch limits must be > 0"@,
                ConfigError::BackwardsBackoff { sink } => message@ == "sink "@ + quoted(sink@)
                    + " retry_initial_backoff_ms must be <= retry_max_backoff_ms"@,
                ConfigError::UnknownInput { sink, input } => message@ == "sink "@ + quoted(sink@)
                    + " references unknown input "@ + quoted(input@),
                ConfigError::NoTopics { source } => message@ == "source "@ + quoted(source@)
                    + " has no topics"@,
                ConfigError::NoSourceLimit { source } => message@ == "source "@ + quoted(source@)
                    + " batch and in-flight limits must be > 0"@,
            },
    {
        match self {
            ConfigError::NoSources => "at least one source is required".to_owned(),
            ConfigError::NoSinks => "at least one sink is required".to_owned(),
            ConfigError::NoInputs { sink } => complaint("sink ", sink, " has no inputs"),
            ConfigError::NoCapacity { sink } => complaint(
                "sink ",
                sink,
                " buffer_capacity must be > 0",
            ),
            ConfigError::NoBatchLimit { sink } => complaint(
                "sink ",
                sink,
                " batch limits must be > 0",
            ),
            ConfigError::BackwardsBackoff { sink } => complaint(
                "sink ",
                sink,
                " retry_initial_backoff_ms must be <= retry_max_backoff_ms",
            ),
            ConfigError::UnknownInput { sink, input } => {
                let mut message = complaint("sink ", sink, " references unknown input ");
                message.append(debug_text(input).as_str());
                message
            },
            ConfigError::NoTopics { source } => complaint("source ", source, " has no topics"),
            ConfigError::NoSourceLimit { source } => complaint(
                "source ",
                source,
                " batch and in-flight limits must be > 0",
            ),
        }
    }
}

/// A sink that can run: it reads from known sources, queues and writes at least
/// something, and its backoff window is not backwards.
pub open spec fn sink_is_sound(sources: Map<Seq<char>, SourceConfig>, sink: SinkConfig) -> bool {
    &&& sink.input_ids().len() > 0
    &&& sink.capacity() > 0
    &&& sink.limits().0 > 0 && sink.limits().1 > 0
    &&& sink.delivery().2 <= sink.delivery().3
    &&& forall|i: int|
        0 <= i < sink.input_ids().len() ==> sources.contains_key(#[trigger] sink.input_ids()[i])
}

/// A source that can run: it has topics and room for at least one batch.
pub open spec fn source_is_sound(source: SourceConfig) -> bool {
    match source {
        SourceConfig::Kafka(kafka) => {
            &&& kafka.topics@.len() > 0
            &&& kafka.batch_size > 0
            &&& kafka.max_in_flight_batches > 0
            &&& kafka.max_in_flight_bytes > 0
        },
    }
}

/// A topology that can run.
pub open spec fn config_is_sound(config: Config) -> bool {
    &&& config.sources.ids().len() > 0
    &&& config.sinks.ids().len() > 0
    &&& forall|i: int|
        0 <= i < config.sinks.ids().len() ==> sink_is_sound(
            config.sources@,
            config.sinks@[#[trigger] config.sinks.ids()[i]],
        )
    &&& forall|i: int|
        0 <= i < config.sources.ids().len() ==> source_is_sound(
            config.sources@[#[trigger] config.sources.ids()[i]],
        )
}

proof fn lemma_unknown_input(
    inputs: Seq<Seq<char>>,
    sources: Map<Seq<char>, SourceConfig>,
    from: int,
)
    requires
        0 <= from <= inputs.len(),
    ensures
        unknown_input(inputs, sources, from) is None <==> (forall|i: int|
            from <= i < inputs.len() ==> sources.contains_key(#[trigger] inputs[i])),
        unknown_input(inputs, sources, from) matches Some(input) ==> inputs.contains(input)
            && !sources.contains_key(input),
    decreases inputs.len() - from,
{
    if from < inputs.len() {
        lemma_unknown_input(inputs, sources, from + 1);
    }
}

proof fn lemma_sinks_problem(config: Config, from: int)
    requires
        0 <= from <= config.sinks.ids().len(),
    ensures
        sinks_problem(config, from) is None <==> (forall|i: int|
            from <= i < config.sinks.ids().len() ==> sink_is_sound(
                config.sources@,
                config.sinks@[#[trigger] config.sinks.ids()[i]],
            )),
    decreases config.sinks.ids().len() - from,
{
    if from < config.sinks.ids().len() {
        let id = config.sinks.ids()[from];
        lemma_unknown_input(config.sinks@[id].input_ids(), config.sources@, 0);
        lemma_sinks_problem(config, from + 1);
    }
}

proof fn lemma_sources_problem(config: Config, from: int)
    requires
        0 <= from <= config.sources.ids().len(),
    ensures
        sources_problem(config, from) is None <==> (forall|i: int|
            from <= i < config.sources.ids().len() ==> source_is_sound(
                config.sources@[#[trigger] config.sources.ids()[i]],
            )),
    decreases config.sources.ids().len() - from,
{
    if from < config.sources.ids().len() {
        lemma_sources_problem(config, from + 1);
    }
}

/// A configuration passes validation exactly when it is sound, whatever the
/// order in which its parts are looked at.
pub proof fn validation_accepts_exactly_the_sound_configurations(config: Config)
    ensures
        config_problem(config) is None <==> config_is_sound(config),
{
    lemma_sinks_problem(config, 0);
    lemma_sources_problem(config, 0);
}

/// Of the inputs that name no source, the first one is reported.
proof fn lemma_first_unknown_input(
    inputs: Seq<Seq<char>>,
    sources: Map<Seq<char>, SourceConfig>,
    from: int,
) -> (at: int)
    requires
        0 <= from <= inputs.len(),
        unknown_input(inputs, sources, from) is Some,
    ensures
        from <= at < inputs.len(),
        unknown_input(inputs, sources, from) == Some(inputs[at]),
        !sources.contains_key(inputs[at]),
        forall|j: int| from <= j < at ==> sources.contains_key(#[trigger] inputs[j]),
    decreases inputs.len() - from,
{
    if !sources.contains_key(inputs[from]) {
        from
    } else {
        lemma_first_unknown_input(inputs, sources, from + 1)
    }
}

/// A Kafka sink passes exactly when it reads from known sources, queues and writes
/// at least something, and backs off forwards. What it is refused for is the first
/// of these that does not hold.
pub proof fn a_kafka_sink_passes_exactly_when_it_can_run(
    sources: Map<Seq<char>, SourceConfig>,
    id: Seq<char>,
    c: KafkaSinkConfig,
)
    ensures
        match sink_problem(sources, id, SinkConfig::Kafka(c)) {
            None => {
                &&& c.inputs@.len() > 0
                &&& c.buffer_capacity > 0
                &&& c.batch_max_events > 0
                &&& c.batch_max_bytes > 0
                &&& c.retry_initial_backoff_ms <= c.retry_max_backoff_ms
                &&& forall|i: int|
                    0 <= i < c.inputs@.len() ==> sources.contains_key((#[trigger] c.inputs@[i])@)
            },
            Some(ConfigProblem::NoInputs { sink }) => sink == id && c.inputs@.len() == 0,
            Some(ConfigProblem::NoCapacity { sink }) => sink == id && c.inputs@.len() > 0
                && c.buffer_capacity == 0,
            Some(ConfigProblem::NoBatchLimit { sink }) => sink == id && c.inputs@.len() > 0
                && c.buffer_capacity > 0 && (c.batch_max_events == 0 || c.batch_max_bytes == 0),
            Some(ConfigProblem::BackwardsBackoff { sink }) => sink == id && c.inputs@.len() > 0
                && c.buffer_capacity > 0 && c.batch_max_events > 0 && c.batch_max_bytes > 0
                && c.retry_initial_backoff_ms > c.retry_max_backoff_ms,
            Some(ConfigProblem::UnknownInput { sink, input }) => sink == id && c.buffer_capacity
                > 0 && c.batch_max_events > 0 && c.batch_max_bytes > 0
                && c.retry_initial_backoff_ms <= c.retry_max_backoff_ms && !sources.contains_key(
                input,
            ) && exists|i: int|
                #![trigger c.inputs@[i]]
                0 <= i < c.inputs@.len() && c.inputs@[i]@ == input && forall|j: int|
                    0 <= j < i ==> sources.contains_key((#[trigger] c.inputs@[j])@),
            Some(_) => false,
        },
{
    let sink = SinkConfig::Kafka(c);
    let ids = sink.input_ids();
    assert(ids.len() == c.inputs@.len());
    assert forall|i: int| 0 <= i < ids.len() implies #[trigger] ids[i] == c.inputs@[i]@ by {}
    lemma_unknown_input(ids, sources, 0);
    match unknown_input(ids, sources, 0) {
        Some(input) => {
            let i = lemma_first_unknown_input(ids, sources, 0);
            assert(c.inputs@[i]@ == input);
            assert forall|j: int| 0 <= j < i implies sources.contains_key(
                (#[trigger] c.inputs@[j])@,
            ) by {
                assert(sources.contains_key(ids[j]));
            }
        },
        None => {
            assert forall|i: int| 0 <= i < c.inputs@.len() implies sources.contains_key(
                (#[trigger] c.inputs@[i])@,
            ) by {
                assert(sources.contains_key(ids[i]));
            }
        },
    }
}

/// A ClickHouse sink passes exactly when it reads from known sources, queues and writes
/// at least something, and backs off forwards. What it is refused for is the first
/// of these that does not hold.
pub proof fn a_clickhouse_sink_passes_exactly_when_it_can_run(
    sources: Map<Seq<char>, SourceConfig>,
    id: Seq<char>,
    c: ClickhouseSinkConfig,
)
    ensures
        match sink_problem(sources, id, SinkConfig::Clickhouse(c)) {
            None => {
                &&& c.inputs@.len() > 0
                &&& c.buffer_capacity > 0
                &&& c.batch_max_events > 0
                &&& c.batch_max_bytes > 0
                &&& c.retry_initial_backoff_ms <= c.retry_max_backoff_ms
                &&& forall|i: int|
                    0 <= i < c.inputs@.len() ==> sources.contains_key((#[trigger] c.inputs@[i])@)
            },
            Some(ConfigProblem::NoInputs { sink }) => sink == id && c.inputs@.len() == 0,
            Some(ConfigProblem::NoCapacity { sink }) => sink == id && c.inputs@.len() > 0
                && c.buffer_capacity == 0,
            Some(ConfigProblem::NoBatchLimit { sink }) => sink == id && c.inputs@.len() > 0
                && c.buffer_capacity > 0 && (c.batch_max_events == 0 || c.batch_max_bytes == 0),
            Some(ConfigProblem::BackwardsBackoff { sink }) => sink == id && c.inputs@.len() > 0
                && c.buffer_capacity > 0 && c.batch_max_events > 0 && c.batch_max_bytes > 0
                && c.retry_initial_backoff_ms > c.retry_max_backoff_ms,
            Some(ConfigProblem::UnknownInput { sink, input }) => sink == id && c.buffer_capacity
                > 0 && c.batch_max_events > 0 && c.batch_max_bytes > 0
                && c.retry_initial_backoff_ms <= c.retry_max_backoff_ms && !sources.contains_key(
                input,
            ) && exists|i: int|
                #![trigger c.inputs@[i]]
                0 <= i < c.inputs@.len() && c.inputs@[i]@ == input && forall|j: int|
                    0 <= j < i ==> sources.contains_key((#[trigger] c.inputs@[j])@),
            Some(_) => false,
        },
{
    let sink = SinkConfig::Clickhouse(c);
    let ids = sink.input_ids();
    assert(ids.len() == c.inputs@.len());
    assert forall|i: int| 0 <= i < ids.len() implies #[trigger] ids[i] == c.inputs@[i]@ by {}
    lemma_unknown_input(ids, sources, 0);
    match unknown_input(ids, sources, 0) {
        Some(input) => {
            let i = lemma_first_unknown_input(ids, sources, 0);
            assert(c.inputs@[i]@ == input);
            assert forall|j: int| 0 <= j < i implies sources.contains_key(
                (#[trigger] c.inputs@[j])@,
            ) by {
                assert(sources.contains_key(ids[j]));
            }
        },
        None => {
            assert forall|i: int| 0 <= i < c.inputs@.len() implies sources.contains_key(
                (#[trigger] c.inputs@[i])@,
            ) by {
                assert(sources.contains_key(ids[i]));
            }
        },
    }
}

/// A source passes exactly when it has topics and room for at least one batch.
pub proof fn a_source_passes_exactly_when_it_can_run(id: Seq<char>, c: KafkaSourceConfig)
    ensures
        match source_problem(id, SourceConfig::Kafka(c)) {
            None => c.topics@.len() > 0 && c.batch_size > 0 && c.max_in_flight_batches > 0
                && c.max_in_flight_bytes > 0,
            Some(ConfigProblem::NoTopics { source }) => source == id && c.topics@.len() == 0,
            Some(ConfigProblem::NoSourceLimit { source }) => source == id && c.topics@.len() > 0
                && (c.batch_size == 0 || c.max_in_flight_batches == 0 || c.max_in_flight_bytes
                == 0),
            Some(_) => false,
        },
{
}

proof fn lemma_first_sink_problem(config: Config, from: int) -> (at: int)
    requires
        0 <= from <= config.sinks.ids().len(),
    ensures
        from <= at <= config.sinks.ids().len(),
        forall|i: int|
            from <= i < at ==> sink_problem(
                config.sources@,
                #[trigger] config.sinks.ids()[i],
                config.sinks@[config.sinks.ids()[i]],
            ) is None,
        at < config.sinks.ids().len() ==> sinks_problem(config, from) is Some && sinks_problem(
            config,
            from,
        ) == sink_problem(
            config.sources@,
            config.sinks.ids()[at],
            config.sinks@[config.sinks.ids()[at]],
        ),
        at == config.sinks.ids().len() ==> sinks_problem(config, from) is None,
    decreases config.sinks.ids().len() - from,
{
    if from < config.sinks.ids().len() && sink_problem(
        config.sources@,
        config.sinks.ids()[from],
        config.sinks@[config.sinks.ids()[from]],
    ) is None {
        lemma_first_sink_problem(config, from + 1)
    } else {
        from
    }
}

proof fn lemma_first_source_problem(config: Config, from: int) -> (at: int)
    requires
        0 <= from <= config.sources.ids().len(),
    ensures
        from <= at <= config.sources.ids().len(),
        forall|i: int|
            from <= i < at ==> source_problem(
                #[trigger] config.sources.ids()[i],
                config.sources@[config.sources.ids()[i]],
            ) is None,
        at < config.sources.ids().len() ==> sources_problem(config, from) is Some
            && sources_problem(config, from) == source_problem(
            config.sources.ids()[at],
            config.sources@[config.sources.ids()[at]],
        ),
        at == config.sources.ids().len() ==> sources_problem(config, from) is None,
    decreases config.sources.ids().len() - from,
{
    if from < config.sources.ids().len() && source_problem(
        config.sources.ids()[from],
        config.sources@[config.sources.ids()[from]],
    ) is None {
        lemma_first_source_problem(config, from + 1)
    } else {
        from
    }
}

/// A configuration passes exactly when it has a source and a sink and each of
/// them passes. It is refused for the first sink that does not, in the order of
/// the ids, or else for the first such source.
#[verifier::rlimit(40)]
pub proof fn a_configuration_is_refused_for_its_first_fault(config: Config)
    ensures
        config.sources.ids().len() == 0 <==> config_problem(config) == Some(
            ConfigProblem::NoSources,
        ),
        config.sources.ids().len() > 0 && config.sinks.ids().len() == 0 <==> config_problem(config)
            == Some(ConfigProblem::NoSinks),
        config_problem(config) is None <==> {
            &&& config.sources.ids().len() > 0
            &&& config.sinks.ids().len() > 0
            &&& forall|i: int|
                0 <= i < config.sinks.ids().len() ==> sink_problem(
                    config.sources@,
                    #[trigger] config.sinks.ids()[i],
                    config.sinks@[config.sinks.ids()[i]],
                ) is None
            &&& forall|i: int|
                0 <= i < config.sources.ids().len() ==> source_problem(
                    #[trigger] config.sources.ids()[i],
                    config.sources@[config.sources.ids()[i]],
                ) is None
        },
        config.sources.ids().len() > 0 && config.sinks.ids().len() > 0 && config_problem(
            config,
        ) is Some ==> {
            ||| exists|i: int|
                #![trigger config.sinks.ids()[i]]
                0 <= i < config.sinks.ids().len() && config_problem(config) == sink_problem(
                    config.sources@,
                    config.sinks.ids()[i],
                    config.sinks@[config.sinks.ids()[i]],
                ) && forall|j: int|
                    0 <= j < i ==> sink_problem(
                        config.sources@,
                        #[trigger] config.sinks.ids()[j],
                        config.sinks@[config.sinks.ids()[j]],
                    ) is None
            ||| exists|i: int|
                #![trigger config.sources.ids()[i]]
                0 <= i < config.sources.ids().len() && config_problem(config) == source_problem(
                    config.sources.ids()[i],
                    config.sources@[config.sources.ids()[i]],
                ) && forall|j: int|
                    0 <= j < i ==> source_problem(
                        #[trigger] config.sources.ids()[j],
                        config.sources@[config.sources.ids()[j]],
                    ) is None && forall|k: int|
                    0 <= k < config.sinks.ids().len() ==> sink_problem(
                        config.sources@,
                        #[trigger] config.sinks.ids()[k],
                        config.sinks@[config.sinks.ids()[k]],
                    ) is None
        },
{
    let sink = lemma_first_sink_problem(config, 0);
    let source = lemma_first_source_problem(config, 0);
    if sink < config.sinks.ids().len() {
        let id = config.sinks.ids()[sink];
        lemma_problem_is_of_a_sink(config.sources@, id, config.sinks@[id]);
    } else if source < config.sources.ids().len() {
        let id = config.sources.ids()[source];
        match config.sources@[id] {
            SourceConfig::Kafka(c) => a_source_passes_exactly_when_it_can_run(id, c),
        }
    }
}

proof fn lemma_problem_is_of_a_sink(
    sources: Map<Seq<char>, SourceConfig>,
    id: Seq<char>,
    sink: SinkConfig,
)
    ensures
        sink_problem(sources, id, sink) != Some(ConfigProblem::NoSources),
        sink_problem(sources, id, sink) != Some(ConfigProblem::NoSinks),
{
}

/// The inputs of a sink are those it is configured with, in that order.
pub proof fn the_inputs_are_the_configured_ones(
    kafka: KafkaSinkConfig,
    clickhouse: ClickhouseSinkConfig,
    i: int,
)
    ensures
        SinkConfig::Kafka(kafka).input_ids().len() == kafka.inputs@.len(),
        0 <= i < kafka.inputs@.len() ==> SinkConfig::Kafka(kafka).input_ids()[i]
            == kafka.inputs@[i]@,
        SinkConfig::Clickhouse(clickhouse).input_ids().len() == clickhouse.inputs@.len(),
        0 <= i < clickhouse.inputs@.len() ==> SinkConfig::Clickhouse(clickhouse).input_ids()[i]
            == clickhouse.inputs@[i]@,
{
}

/// Raising to one leaves everything from one on alone.
pub proof fn at_least_one_changes_only_what_is_below(value: int)
    ensures
        at_least_one(value) >= 1,
        value >= 1 ==> at_least_one(value) == value,
        value < 1 ==> at_least_one(value) == 1,
{
}

/// Queue, batch and delivery settings are those configured for the sink, whichever
/// kind it is of.
pub proof fn the_settings_are_the_configured_ones(sink: SinkConfig)
    ensures
        sink matches SinkConfig::Kafka(c) ==> {
            &&& sink.capacity() == c.buffer_capacity
            &&& sink.limits().0 == c.batch_max_events && sink.limits().1 == c.batch_max_bytes
            &&& sink.delivery().0 == c.max_concurrent_writes
            &&& sink.delivery().1 == c.retry_max_attempts
            &&& sink.delivery().2 == c.retry_initial_backoff_ms
            &&& sink.delivery().3 == c.retry_max_backoff_ms
        },
        sink matches SinkConfig::Clickhouse(c) ==> {
            &&& sink.capacity() == c.buffer_capacity
            &&& sink.limits().0 == c.batch_max_events && sink.limits().1 == c.batch_max_bytes
            &&& sink.delivery().0 == c.max_concurrent_writes
            &&& sink.delivery().1 == c.retry_max_attempts
            &&& sink.delivery().2 == c.retry_initial_backoff_ms
            &&& sink.delivery().3 == c.retry_max_backoff_ms
        },
{
}

/// An error names the problem that it is reported for, and whom it concerns.
pub proof fn an_error_names_its_problem(error: ConfigError)
    ensures
        match error {
            ConfigError::NoSources => error@ == ConfigProblem::NoSources,
            ConfigError::NoSinks => error@ == ConfigProblem::NoSinks,
            ConfigError::NoInputs { sink } => error@ == (ConfigProblem::NoInputs { sink: sink@ }),
            ConfigError::NoCapacity { sink } => error@ == (ConfigProblem::NoCapacity {
                sink: sink@,
            }),
            ConfigError::NoBatchLimit { sink } => error@ == (ConfigProblem::NoBatchLimit {
                sink: sink@,
            }),
            ConfigError::BackwardsBackoff { sink } => error@ == (ConfigProblem::BackwardsBackoff {
                sink: sink@,
            }),
            ConfigError::UnknownInput { sink, input } => error@ == (ConfigProblem::UnknownInput {
                sink: sink@,
                input: input@,
            }),
            ConfigError::NoTopics { source } => error@ == (ConfigProblem::NoTopics {
                source: source@,
            }),
            ConfigError::NoSourceLimit { source } => error@ == (ConfigProblem::NoSourceLimit {
                source: source@,
            }),
        },
{
}

} // verus!
