//! Counters for the router, and the two ways they are reported.
//!
//! Deliberately a plain struct of integers rather than a metrics framework: the
//! counter set is small and fixed, so a global recorder would buy nothing and
//! cost a dependency plus a layer of indirection on the hot path.
//!
//! Rates are always computed from the delta between two [`Snapshot`]s. A
//! cumulative average since process start is dragged down by ramp-up and hides
//! stalls entirely, which is exactly how a 25-second consumption stall went
//! unnoticed during benchmarking.

pub mod server;

use crate::idmap::IdMap;
use crate::text;
use vstd::prelude::*;

verus! {

/// The counters of one source.
#[derive(Debug, Clone, Copy, PartialEq, Eq, Structural)]
pub struct SourceMetrics {
    pub events_in: u64,
    pub bytes_in: u64,
    pub batches_in: u64,
    pub commits: u64,
    /// Every rebalance stalls consumption. Without this counter the stall is
    /// invisible from inside the process and only shows up in the broker log.
    ///
    /// Counts the initial assignment too, so this is never zero on a healthy
    /// consumer; what matters is the rate, not the total.
    pub rebalances: u64,
    pub in_flight_bytes: u64,
    pub in_flight_batches: u64,
}

impl Default for SourceMetrics {
    fn default() -> (zero: Self)
        ensures
            zero == idle_source(),
    {
        SourceMetrics {
            events_in: 0,
            bytes_in: 0,
            batches_in: 0,
            commits: 0,
            rebalances: 0,
            in_flight_bytes: 0,
            in_flight_batches: 0,
        }
    }
}

pub open spec fn idle_source() -> SourceMetrics {
    SourceMetrics {
        events_in: 0,
        bytes_in: 0,
        batches_in: 0,
        commits: 0,
        rebalances: 0,
        in_flight_bytes: 0,
        in_flight_batches: 0,
    }
}

/// The counters of one sink.
#[derive(Debug, Clone, Copy, PartialEq, Eq, Structural)]
pub struct SinkMetrics {
    pub events_out: u64,
    /// Rows the sink refused to write, for example a payload that is not a JSON
    /// object. These are lost by design; this counter is what makes the loss
    /// visible rather than silent.
    pub events_dropped: u64,
    pub batches_written: u64,
    pub write_errors: u64,
    pub retries: u64,
    pub queue_depth: u64,
}

impl Default for SinkMetrics {
    fn default() -> (zero: Self)
        ensures
            zero == idle_sink(),
    {
        SinkMetrics {
            events_out: 0,
            events_dropped: 0,
            batches_written: 0,
            write_errors: 0,
            retries: 0,
            queue_depth: 0,
        }
    }
}

pub open spec fn idle_sink() -> SinkMetrics {
    SinkMetrics {
        events_out: 0,
        events_dropped: 0,
        batches_written: 0,
        write_errors: 0,
        retries: 0,
        queue_depth: 0,
    }
}

/// A copy of the counters of one source.
#[derive(Debug, Clone, Copy, PartialEq, Eq, Structural)]
pub struct SourceValues {
    pub events_in: u64,
    pub bytes_in: u64,
    pub batches_in: u64,
    pub commits: u64,
    pub rebalances: u64,
    pub in_flight_bytes: u64,
    pub in_flight_batches: u64,
}

impl Default for SourceValues {
    fn default() -> (zero: Self)
        ensures
            zero == no_source_values(),
    {
        SourceValues {
            events_in: 0,
            bytes_in: 0,
            batches_in: 0,
            commits: 0,
            rebalances: 0,
            in_flight_bytes: 0,
            in_flight_batches: 0,
        }
    }
}

pub open spec fn no_source_values() -> SourceValues {
    SourceValues {
        events_in: 0,
        bytes_in: 0,
        batches_in: 0,
        commits: 0,
        rebalances: 0,
        in_flight_bytes: 0,
        in_flight_batches: 0,
    }
}

/// A copy of the counters of one sink.
#[derive(Debug, Clone, Copy, PartialEq, Eq, Structural)]
pub struct SinkValues {
    pub events_out: u64,
    pub events_dropped: u64,
    pub batches_written: u64,
    pub write_errors: u64,
    pub retries: u64,
    pub queue_depth: u64,
}

impl Default for SinkValues {
    fn default() -> (zero: Self)
        ensures
            zero == no_sink_values(),
    {
        SinkValues {
            events_out: 0,
            events_dropped: 0,
            batches_written: 0,
            write_errors: 0,
            retries: 0,
            queue_depth: 0,
        }
    }
}

pub open spec fn no_sink_values() -> SinkValues {
    SinkValues {
        events_out: 0,
        events_dropped: 0,
        batches_written: 0,
        write_errors: 0,
        retries: 0,
        queue_depth: 0,
    }
}

impl SourceMetrics {
    /// The counters' values.
    pub open spec fn copied(self) -> SourceValues {
        SourceValues {
            events_in: self.events_in,
            bytes_in: self.bytes_in,
            batches_in: self.batches_in,
            commits: self.commits,
            rebalances: self.rebalances,
            in_flight_bytes: self.in_flight_bytes,
            in_flight_batches: self.in_flight_batches,
        }
    }

    fn values(&self) -> (values: SourceValues)
        ensures
            values == self.copied(),
    {
        SourceValues {
            events_in: self.events_in,
            bytes_in: self.bytes_in,
            batches_in: self.batches_in,
            commits: self.commits,
            rebalances: self.rebalances,
            in_flight_bytes: self.in_flight_bytes,
            in_flight_batches: self.in_flight_batches,
        }
    }
}

impl SinkMetrics {
    /// The counters' values.
    pub open spec fn copied(self) -> SinkValues {
        SinkValues {
            events_out: self.events_out,
            events_dropped: self.events_dropped,
            batches_written: self.batches_written,
            write_errors: self.write_errors,
            retries: self.retries,
            queue_depth: self.queue_depth,
        }
    }

    fn values(&self) -> (values: SinkValues)
        ensures
            values == self.copied(),
    {
        SinkValues {
            events_out: self.events_out,
            events_dropped: self.events_dropped,
            batches_written: self.batches_written,
            write_errors: self.write_errors,
            retries: self.retries,
            queue_depth: self.queue_depth,
        }
    }
}

/// The exposition's word for a series' kind.
pub open spec fn kind_text(gauge: bool) -> Seq<char> {
    if gauge {
        "gauge"@
    } else {
        "counter"@
    }
}

/// The series exported for every source.
#[derive(Debug, Clone, Copy, PartialEq, Eq, Structural)]
pub enum SourceSeries {
    EventsTotal,
    BytesTotal,
    BatchesTotal,
    CommitsTotal,
    RebalancesTotal,
    InFlightBytes,
    InFlightBatches,
}

impl SourceSeries {
    /// The series' name.
    pub open spec fn title(self) -> Seq<char> {
        match self {
            SourceSeries::EventsTotal => "rustper_source_events_total"@,
            SourceSeries::BytesTotal => "rustper_source_bytes_total"@,
            SourceSeries::BatchesTotal => "rustper_source_batches_total"@,
            SourceSeries::CommitsTotal => "rustper_source_commits_total"@,
            SourceSeries::RebalancesTotal => "rustper_source_rebalances_total"@,
            SourceSeries::InFlightBytes => "rustper_source_in_flight_bytes"@,
            SourceSeries::InFlightBatches => "rustper_source_in_flight_batches"@,
        }
    }

    /// What the series counts.
    pub open spec fn description(self) -> Seq<char> {
        match self {
            SourceSeries::EventsTotal => "Events consumed and committed."@,
            SourceSeries::BytesTotal => "Payload bytes consumed."@,
            SourceSeries::BatchesTotal => "Batches dispatched to the fan-out."@,
            SourceSeries::CommitsTotal => "Offset commits issued."@,
            SourceSeries::RebalancesTotal => "Consumer group rebalances observed."@,
            SourceSeries::InFlightBytes => "Bytes held by unacknowledged batches."@,
            SourceSeries::InFlightBatches => "Unacknowledged batches."@,
        }
    }

    /// Whether the series is a gauge; the others are counters.
    pub open spec fn is_gauge(self) -> bool {
        match self {
            SourceSeries::InFlightBytes | SourceSeries::InFlightBatches => true,
            _ => false,
        }
    }

    /// The value that the series exports.
    pub open spec fn of(self, values: SourceValues) -> u64 {
        match self {
            SourceSeries::EventsTotal => values.events_in,
            SourceSeries::BytesTotal => values.bytes_in,
            SourceSeries::BatchesTotal => values.batches_in,
            SourceSeries::CommitsTotal => values.commits,
            SourceSeries::RebalancesTotal => values.rebalances,
            SourceSeries::InFlightBytes => values.in_flight_bytes,
            SourceSeries::InFlightBatches => values.in_flight_batches,
        }
    }

    pub fn name(self) -> (name: &'static str)
        ensures
            name@ == self.title(),
    {
        match self {
            SourceSeries::EventsTotal => "rustper_source_events_total",
            SourceSeries::BytesTotal => "rustper_source_bytes_total",
            SourceSeries::BatchesTotal => "rustper_source_batches_total",
            SourceSeries::CommitsTotal => "rustper_source_commits_total",
            SourceSeries::RebalancesTotal => "rustper_source_rebalances_total",
            SourceSeries::InFlightBytes => "rustper_source_in_flight_bytes",
            SourceSeries::InFlightBatches => "rustper_source_in_flight_batches",
        }
    }

    pub fn help(self) -> (help: &'static str)
        ensures
            help@ == self.description(),
    {
        match self {
            SourceSeries::EventsTotal => "Events consumed and committed.",
            SourceSeries::BytesTotal => "Payload bytes consumed.",
            SourceSeries::BatchesTotal => "Batches dispatched to the fan-out.",
            SourceSeries::CommitsTotal => "Offset commits issued.",
            SourceSeries::RebalancesTotal => "Consumer group rebalances observed.",
            SourceSeries::InFlightBytes => "Bytes held by unacknowledged batches.",
            SourceSeries::InFlightBatches => "Unacknowledged batches.",
        }
    }

    pub fn kind(self) -> (kind: &'static str)
        ensures
            kind@ == kind_text(self.is_gauge()),
    {
        match self {
            SourceSeries::InFlightBytes | SourceSeries::InFlightBatches => "gauge",
            _ => "counter",
        }
    }

    pub fn extract(self, values: &SourceValues) -> (value: u64)
        ensures
            value == self.of(*values),
    {
        match self {
            SourceSeries::EventsTotal => values.events_in,
            SourceSeries::BytesTotal => values.bytes_in,
            SourceSeries::BatchesTotal => values.batches_in,
            SourceSeries::CommitsTotal => values.commits,
            SourceSeries::RebalancesTotal => values.rebalances,
            SourceSeries::InFlightBytes => values.in_flight_bytes,
            SourceSeries::InFlightBatches => values.in_flight_batches,
        }
    }
}

/// Every source series, in the order of the exposition.
pub open spec fn source_series_list() -> Seq<SourceSeries> {
    seq![
        SourceSeries::EventsTotal,
        SourceSeries::BytesTotal,
        SourceSeries::BatchesTotal,
        SourceSeries::CommitsTotal,
        SourceSeries::RebalancesTotal,
        SourceSeries::InFlightBytes,
        SourceSeries::InFlightBatches,
    ]
}

/// Every source series, in the order of the exposition.
pub fn source_series() -> (series: Vec<SourceSeries>)
    ensures
        series@ == source_series_list(),
{
    let series = vec![
        SourceSeries::EventsTotal,
        SourceSeries::BytesTotal,
        SourceSeries::BatchesTotal,
        SourceSeries::CommitsTotal,
        SourceSeries::RebalancesTotal,
        SourceSeries::InFlightBytes,
        SourceSeries::InFlightBatches,
    ];
    assert(series@ =~= source_series_list());
    series
}

/// The series exported for every sink.
#[derive(Debug, Clone, Copy, PartialEq, Eq, Structural)]
pub enum SinkSeries {
    EventsTotal,
    EventsDroppedTotal,
    BatchesTotal,
    WriteErrorsTotal,
    RetriesTotal,
    QueueDepth,
}

impl SinkSeries {
    /// The series' name.
    pub open spec fn title(self) -> Seq<char> {
        match self {
            SinkSeries::EventsTotal => "rustper_sink_events_total"@,
            SinkSeries::EventsDroppedTotal => "rustper_sink_events_dropped_total"@,
            SinkSeries::BatchesTotal => "rustper_sink_batches_total"@,
            SinkSeries::WriteErrorsTotal => "rustper_sink_write_errors_total"@,
            SinkSeries::RetriesTotal => "rustper_sink_retries_total"@,
            SinkSeries::QueueDepth => "rustper_sink_queue_depth"@,
        }
    }

    /// What the series counts.
    pub open spec fn description(self) -> Seq<char> {
        match self {
            SinkSeries::EventsTotal => "Events written."@,
            SinkSeries::EventsDroppedTotal => "Events the sink refused to write."@,
            SinkSeries::BatchesTotal => "Coalesced writes completed."@,
            SinkSeries::WriteErrorsTotal => "Writes that failed after retries."@,
            SinkSeries::RetriesTotal => "Write attempts retried."@,
            SinkSeries::QueueDepth => "Envelopes waiting in the sink queue."@,
        }
    }

    /// Whether the series is a gauge; the others are counters.
    pub open spec fn is_gauge(self) -> bool {
        match self {
            SinkSeries::QueueDepth => true,
            _ => false,
        }
    }

    /// The value that the series exports.
    pub open spec fn of(self, values: SinkValues) -> u64 {
        match self {
            SinkSeries::EventsTotal => values.events_out,
            SinkSeries::EventsDroppedTotal => values.events_dropped,
            SinkSeries::BatchesTotal => values.batches_written,
            SinkSeries::WriteErrorsTotal => values.write_errors,
            SinkSeries::RetriesTotal => values.retries,
            SinkSeries::QueueDepth => values.queue_depth,
        }
    }

    pub fn name(self) -> (name: &'static str)
        ensures
            name@ == self.title(),
    {
        match self {
            SinkSeries::EventsTotal => "rustper_sink_events_total",
            SinkSeries::EventsDroppedTotal => "rustper_sink_events_dropped_total",
            SinkSeries::BatchesTotal => "rustper_sink_batches_total",
            SinkSeries::WriteErrorsTotal => "rustper_sink_write_errors_total",
            SinkSeries::RetriesTotal => "rustper_sink_retries_total",
            SinkSeries::QueueDepth => "rustper_sink_queue_depth",
        }
    }

    pub fn help(self) -> (help: &'static str)
        ensures
            help@ == self.description(),
    {
        match self {
            SinkSeries::EventsTotal => "Events written.",
            SinkSeries::EventsDroppedTotal => "Events the sink refused to write.",
            SinkSeries::BatchesTotal => "Coalesced writes completed.",
            SinkSeries::WriteErrorsTotal => "Writes that failed after retries.",
            SinkSeries::RetriesTotal => "Write attempts retried.",
            SinkSeries::QueueDepth => "Envelopes waiting in the sink queue.",
        }
    }

    pub fn kind(self) -> (kind: &'static str)
        ensures
            kind@ == kind_text(self.is_gauge()),
    {
        match self {
            SinkSeries::QueueDepth => "gauge",
            _ => "counter",
        }
    }

    pub fn extract(self, values: &SinkValues) -> (value: u64)
        ensures
            value == self.of(*values),
    {
        match self {
            SinkSeries::EventsTotal => values.events_out,
            SinkSeries::EventsDroppedTotal => values.events_dropped,
            SinkSeries::BatchesTotal => values.batches_written,
            SinkSeries::WriteErrorsTotal => values.write_errors,
            SinkSeries::RetriesTotal => values.retries,
            SinkSeries::QueueDepth => values.queue_depth,
        }
    }
}

/// Every sink series, in the order of the exposition.
pub open spec fn sink_series_list() -> Seq<SinkSeries> {
    seq![
        SinkSeries::EventsTotal,
        SinkSeries::EventsDroppedTotal,
        SinkSeries::BatchesTotal,
        SinkSeries::WriteErrorsTotal,
        SinkSeries::RetriesTotal,
        SinkSeries::QueueDepth,
    ]
}

/// Every sink series, in the order of the exposition.
pub fn sink_series() -> (series: Vec<SinkSeries>)
    ensures
        series@ == sink_series_list(),
{
    let series = vec![
        SinkSeries::EventsTotal,
        SinkSeries::EventsDroppedTotal,
        SinkSeries::BatchesTotal,
        SinkSeries::WriteErrorsTotal,
        SinkSeries::RetriesTotal,
        SinkSeries::QueueDepth,
    ];
    assert(series@ =~= sink_series_list());
    series
}

/// A counter after `more` further counts; counters wrap around.
pub open spec fn counted(count: u64, more: u64) -> u64 {
    if count + more > u64::MAX {
        (count + more - u64::MAX - 1) as u64
    } else {
        (count + more) as u64
    }
}

/// A counter counts modulo the range of a `u64`, and exactly until it wraps.
pub proof fn a_counter_wraps_around(count: u64, more: u64)
    ensures
        counted(count, more) as int == (count + more) % 0x1_0000_0000_0000_0000,
        count + more <= u64::MAX ==> counted(count, more) == count + more,
{
}

/// Per-component state of the whole router.
#[derive(Debug)]
pub struct Metrics {
    sources: IdMap<SourceMetrics>,
    sinks: IdMap<SinkMetrics>,
}

/// Whether `id` is one of `ids`.
pub open spec fn listed(ids: Seq<&str>, id: Seq<char>) -> bool {
    exists|i: int| 0 <= i < ids.len() && (#[trigger] ids[i])@ == id
}

proof fn lemma_listed_next(ids: Seq<&str>, n: int, id: Seq<char>)
    requires
        0 <= n < ids.len(),
    ensures
        listed(ids.take(n + 1), id) <==> listed(ids.take(n), id) || ids[n]@ == id,
{
    if listed(ids.take(n), id) {
        let i = choose|i: int| 0 <= i < n && (#[trigger] ids.take(n)[i])@ == id;
        assert(ids.take(n + 1)[i]@ == id);
    }
    if ids[n]@ == id {
        assert(ids.take(n + 1)[n]@ == id);
    }
    if listed(ids.take(n + 1), id) {
        let i = choose|i: int| 0 <= i < n + 1 && (#[trigger] ids.take(n + 1)[i])@ == id;
        if i < n {
            assert(ids.take(n)[i]@ == id);
        }
    }
}

/// Gives every id a copy of `idle`.
fn register<V: Copy>(ids: &[&str], idle: V) -> (map: IdMap<V>)
    ensures
        forall|id: Seq<char>| #[trigger]
            map@.contains_key(id) <==> listed(ids@, id),
        forall|id: Seq<char>| map@.contains_key(id) ==> #[trigger] map@[id] == idle,
        map.in_order(),
{
    let mut map: IdMap<V> = IdMap::new();
    let mut i: usize = 0;
    while i < ids.len()
        invariant
            i <= ids@.len(),
            forall|id: Seq<char>| #[trigger]
                map@.contains_key(id) <==> listed(ids@.take(i as int), id),
            forall|id: Seq<char>| map@.contains_key(id) ==> #[trigger] map@[id] == idle,
            map.in_order(),
        decreases ids@.len() - i,
    {
        map.insert(ids[i].to_owned(), idle);
        proof {
            assert forall|id: Seq<char>| #[trigger]
                map@.contains_key(id) <==> listed(ids@.take(i + 1), id) by {
                lemma_listed_next(ids@, i as int, id);
            }
        }
        i += 1;
    }
    assert(ids@.take(i as int) =~= ids@);
    map
}

/// The two comment lines that introduce a series.
pub open spec fn header(title: Seq<char>, help: Seq<char>, kind: Seq<char>) -> Seq<char> {
    "# HELP "@ + title + " "@ + help + "\n"@ + "# TYPE "@ + title + " "@ + kind + "\n"@
}

/// One character of a label value: backslash, quote and line feed are escaped.
pub open spec fn label_char(c: char) -> Seq<char> {
    if c == '\\' || c == '"' {
        seq!['\\', c]
    } else if c == '\n' {
        seq!['\\', 'n']
    } else {
        seq![c]
    }
}

/// An id as a label value.
pub open spec fn label_value(id: Seq<char>) -> Seq<char>
    decreases id.len(),
{
    if id.len() == 0 {
        Seq::empty()
    } else {
        label_value(id.drop_last()) + label_char(id.last())
    }
}

/// What a scraper reads from a label value, up to and with the closing quote:
/// `None` where the quote is not the end of the text, or an escape is unknown.
pub open spec fn read_label(text: Seq<char>) -> Option<Seq<char>>
    decreases text.len(),
{
    if text.len() == 0 || text[0] == '\n' {
        None
    } else if text[0] == '"' {
        if text.len() == 1 {
            Some(Seq::empty())
        } else {
            None
        }
    } else if text[0] == '\\' {
        if text.len() < 2 || (text[1] != '\\' && text[1] != '"' && text[1] != 'n') {
            None
        } else {
            match read_label(text.skip(2)) {
                Some(rest) => Some(
                    seq![
                        if text[1] == 'n' {
                            '\n'
                        } else {
                            text[1]
                        },
                    ] + rest,
                ),
                None => None,
            }
        }
    } else {
        match read_label(text.skip(1)) {
            Some(rest) => Some(seq![text[0]] + rest),
            None => None,
        }
    }
}

proof fn lemma_label_value_front(id: Seq<char>)
    requires
        id.len() > 0,
    ensures
        label_value(id) == label_char(id[0]) + label_value(id.skip(1)),
    decreases id.len(),
{
    if id.len() == 1 {
        assert(id.drop_last() =~= Seq::<char>::empty());
        assert(id.skip(1) =~= Seq::<char>::empty());
        assert(label_value(id.drop_last()) =~= Seq::<char>::empty());
    } else {
        lemma_label_value_front(id.drop_last());
        assert(id.skip(1).drop_last() =~= id.drop_last().skip(1));
    }
    assert(label_value(id) =~= label_char(id[0]) + label_value(id.skip(1)));
}

/// A label reads back as the id it was written for, whatever the id holds, so
/// no id can break its line of the exposition.
pub proof fn a_label_reads_back_as_the_id(id: Seq<char>)
    ensures
        read_label(label_value(id) + seq!['"']) == Some(id),
    decreases id.len(),
{
    let inner = label_value(id) + seq!['"'];
    if id.len() == 0 {
        assert(label_value(id) =~= Seq::<char>::empty());
        assert(inner =~= seq!['"']);
        assert(id =~= Seq::<char>::empty());
    } else {
        let c = id[0];
        let rest = id.skip(1);
        let after = label_value(rest) + seq!['"'];
        a_label_reads_back_as_the_id(rest);
        lemma_label_value_front(id);
        assert(inner =~= label_char(c) + after);
        if c == '\\' || c == '"' || c == '\n' {
            assert(inner.skip(2) =~= after);
        } else {
            assert(inner.skip(1) =~= after);
        }
        assert(seq![c] + rest =~= id);
    }
}

fn push_label(out: &mut String, id: &str)
    ensures
        final(out)@ == old(out)@ + label_value(id@),
{
    let ghost before = out@;
    assert(before + label_value(id@.take(0)) =~= before);
    for c in it: id.chars()
        invariant
            it.seq() == id@,
            out@ == before + label_value(id@.take(it.index() as int)),
    {
        if c == '\\' || c == '"' {
            out.push('\\');
            out.push(c);
        } else if c == '\n' {
            out.push('\\');
            out.push('n');
        } else {
            out.push(c);
        }
        proof {
            let n = it.index() as int;
            assert(id@.take(n + 1).drop_last() =~= id@.take(n));
            assert(id@.take(n + 1).last() == c);
            assert(out@ =~= before + label_value(id@.take(n + 1)));
        }
    }
    assert(id@.take(id@.len() as int) =~= id@);
}

/// One line of a series: the component it is about, and its value.
pub open spec fn sample(title: Seq<char>, label: Seq<char>, id: Seq<char>, value: u64) -> Seq<
    char,
> {
    title + "{"@ + label + "=\""@ + label_value(id) + "\"} "@ + text::decimal(value as nat) + "\n"@
}

/// The lines of a series, one per component.
pub open spec fn samples(
    title: Seq<char>,
    label: Seq<char>,
    ids: Seq<Seq<char>>,
    values: Seq<u64>,
) -> Seq<char>
    decreases ids.len(),
{
    if ids.len() == 0 {
        Seq::empty()
    } else {
        samples(title, label, ids.drop_last(), values.drop_last()) + sample(
            title,
            label,
            ids.last(),
            values.last(),
        )
    }
}

fn push_header(out: &mut String, name: &str, help: &str, kind: &str)
    ensures
        final(out)@ == old(out)@ + header(name@, help@, kind@),
{
    out.append("# HELP ");
    out.append(name);
    out.append(" ");
    out.append(help);
    out.append("\n");
    out.append("# TYPE ");
    out.append(name);
    out.append(" ");
    out.append(kind);
    out.append("\n");
    assert(out@ =~= old(out)@ + header(name@, help@, kind@));
}

fn push_sample(out: &mut String, name: &str, label: &str, id: &str, value: u64)
    ensures
        final(out)@ == old(out)@ + sample(name@, label@, id@, value),
{
    out.append(name);
    out.append("{");
    out.append(label);
    out.append("=\"");
    push_label(out, id);
    out.append("\"} ");
    text::push_decimal(out, value);
    out.append("\n");
    assert(out@ =~= old(out)@ + sample(name@, label@, id@, value));
}

/// A whole series: its header, and a line per component.
pub open spec fn series_text(
    title: Seq<char>,
    help: Seq<char>,
    kind: Seq<char>,
    label: Seq<char>,
    ids: Seq<Seq<char>>,
    values: Seq<u64>,
) -> Seq<char> {
    header(title, help, kind) + samples(title, label, ids, values)
}

fn push_series(
    out: &mut String,
    name: &str,
    help: &str,
    kind: &str,
    label: &str,
    exported: &IdMap<u64>,
)
    ensures
        final(out)@ == old(out)@ + series_text(
            name@,
            help@,
            kind@,
            label@,
            exported.ids(),
            exported.values(),
        ),
{
    push_header(out, name, help, kind);
    let ghost start = out@;
    let ghost ids = exported.ids();
    let ghost values = exported.values();
    let count: usize = exported.len();
    let mut i: usize = 0;
    while i < count
        invariant
            i <= count,
            count == ids.len(),
            count == values.len(),
            ids == exported.ids(),
            values == exported.values(),
            out@ == start + samples(name@, label@, ids.take(i as int), values.take(i as int)),
        decreases ids.len() - i,
    {
        push_sample(out, name, label, exported.id_at(i), *exported.value_at(i));
        proof {
            assert(ids.take(i + 1).drop_last() =~= ids.take(i as int));
            assert(values.take(i + 1).drop_last() =~= values.take(i as int));
            assert(out@ =~= start + samples(name@, label@, ids.take(i + 1), values.take(i + 1)));
        }
        i += 1;
    }
    assert(ids.take(i as int) =~= ids);
    assert(values.take(i as int) =~= values);
    assert(out@ =~= old(out)@ + series_text(name@, help@, kind@, label@, ids, values));
}

/// The exposition of some source series.
pub open spec fn source_exposition(
    series: Seq<SourceSeries>,
    ids: Seq<Seq<char>>,
    values: Seq<SourceValues>,
) -> Seq<char>
    decreases series.len(),
{
    if series.len() == 0 {
        Seq::empty()
    } else {
        source_exposition(series.drop_last(), ids, values) + series_text(
            series.last().title(),
            series.last().description(),
            kind_text(series.last().is_gauge()),
            "source"@,
            ids,
            values.map_values(|v: SourceValues| series.last().of(v)),
        )
    }
}

/// The exposition of some sink series.
pub open spec fn sink_exposition(
    series: Seq<SinkSeries>,
    ids: Seq<Seq<char>>,
    values: Seq<SinkValues>,
) -> Seq<char>
    decreases series.len(),
{
    if series.len() == 0 {
        Seq::empty()
    } else {
        sink_exposition(series.drop_last(), ids, values) + series_text(
            series.last().title(),
            series.last().description(),
            kind_text(series.last().is_gauge()),
            "sink"@,
            ids,
            values.map_values(|v: SinkValues| series.last().of(v)),
        )
    }
}

impl Metrics {
    /// The counters by source.
    pub closed spec fn sources(self) -> IdMap<SourceMetrics> {
        self.sources
    }

    /// The counters by sink.
    pub closed spec fn sinks(self) -> IdMap<SinkMetrics> {
        self.sinks
    }

    /// Registers every component, with its counters at zero.
    pub fn new(sources: &[&str], sinks: &[&str]) -> (metrics: Self)
        ensures
            forall|id: Seq<char>| #[trigger]
                metrics.sources()@.contains_key(id) <==> listed(sources@, id),
            forall|id: Seq<char>|
                metrics.sources()@.contains_key(id) ==> #[trigger] metrics.sources()@[id]
                    == idle_source(),
            metrics.sources().in_order(),
            forall|id: Seq<char>| #[trigger]
                metrics.sinks()@.contains_key(id) <==> listed(sinks@, id),
            forall|id: Seq<char>|
                metrics.sinks()@.contains_key(id) ==> #[trigger] metrics.sinks()@[id]
                    == idle_sink(),
            metrics.sinks().in_order(),
    {
        Metrics {
            sources: register(sources, SourceMetrics::default()),
            sinks: register(sinks, SinkMetrics::default()),
        }
    }

    /// Returns the counters for `id`.
    ///
    /// Every component is registered at startup from the same config, so a miss
    /// is a wiring bug, not a runtime condition.
    pub fn source(&self, id: &str) -> (counters: &SourceMetrics)
        requires
            self.sources()@.contains_key(id@),
        ensures
            *counters == self.sources()@[id@],
    {
        self.sources.get(id).unwrap()
    }

    pub fn sink(&self, id: &str) -> (counters: &SinkMetrics)
        requires
            self.sinks()@.contains_key(id@),
        ensures
            *counters == self.sinks()@[id@],
    {
        self.sinks.get(id).unwrap()
    }

    /// Returns the counters for `id`, to be advanced.
    pub fn source_mut(&mut self, id: &str) -> (counters: &mut SourceMetrics)
        requires
            old(self).sources()@.contains_key(id@),
        ensures
            *counters == old(self).sources()@[id@],
            final(self).sources()@ == old(self).sources()@.insert(id@, *final(counters)),
            final(self).sources().ids() == old(self).sources().ids(),
            final(self).sources().values() == old(self).sources().values().update(
                old(self).sources().ids().index_of(id@),
                *final(counters),
            ),
            final(self).sinks() == old(self).sinks(),
    {
        self.sources.get_mut(id).unwrap()
    }

    pub fn sink_mut(&mut self, id: &str) -> (counters: &mut SinkMetrics)
        requires
            old(self).sinks()@.contains_key(id@),
        ensures
            *counters == old(self).sinks()@[id@],
            final(self).sinks()@ == old(self).sinks()@.insert(id@, *final(counters)),
            final(self).sinks().ids() == old(self).sinks().ids(),
            final(self).sinks().values() == old(self).sinks().values().update(
                old(self).sinks().ids().index_of(id@),
                *final(counters),
            ),
            final(self).sources() == old(self).sources(),
    {
        self.sinks.get_mut(id).unwrap()
    }

    /// Copies every counter, as of `taken_at`.
    pub fn snapshot(&self, taken_at: u64) -> (snapshot: Snapshot)
        ensures
            snapshot.taken_at == taken_at,
            snapshot.sources.in_order(),
            snapshot.sources.ids() == self.sources().ids(),
            snapshot.sources.values() == self.sources().values().map_values(
                |m: SourceMetrics| m.copied(),
            ),
            snapshot.sinks.in_order(),
            snapshot.sinks.ids() == self.sinks().ids(),
            snapshot.sinks.values() == self.sinks().values().map_values(
                |m: SinkMetrics| m.copied(),
            ),
    {
        let copy_source = |_id: &str, counters: &SourceMetrics| -> (values: SourceValues)
            ensures values == counters.copied()
        {
            counters.values()
        };
        let sources = self.sources.mapped(copy_source);
        let copy_sink = |_id: &str, counters: &SinkMetrics| -> (values: SinkValues)
            ensures values == counters.copied()
        {
            counters.values()
        };
        let sinks = self.sinks.mapped(copy_sink);
        proof {
            assert(sources.values() =~= self.sources().values().map_values(
                |m: SourceMetrics| m.copied(),
            ));
            assert(sinks.values() =~= self.sinks().values().map_values(
                |m: SinkMetrics| m.copied(),
            ));
        }
        Snapshot { taken_at, sources, sinks }
    }

    /// The whole exposition.
    pub open spec fn exposition(self) -> Seq<char> {
        source_exposition(
            source_series_list(),
            self.sources().ids(),
            self.sources().values().map_values(|m: SourceMetrics| m.copied()),
        ) + sink_exposition(
            sink_series_list(),
            self.sinks().ids(),
            self.sinks().values().map_values(|m: SinkMetrics| m.copied()),
        )
    }

    /// Renders the Prometheus text exposition format.
    pub fn render_prometheus(&self) -> (out: String)
        ensures
            out@ == self.exposition(),
    {
        let snapshot = self.snapshot(0);
        let mut out = String::new();
        let series = source_series();
        let mut i: usize = 0;
        while i < series.len()
            invariant
                i <= series@.len(),
                out@ == source_exposition(
                    series@.take(i as int),
                    snapshot.sources.ids(),
                    snapshot.sources.values(),
                ),
            decreases series@.len() - i,
        {
            let exporting = series[i];
            let export = |_id: &str, values: &SourceValues| -> (value: u64)
                ensures value == exporting.of(*values)
            {
                exporting.extract(values)
            };
            let exported = snapshot.sources.mapped(export);
            push_series(
                &mut out,
                exporting.name(),
                exporting.help(),
                exporting.kind(),
                "source",
                &exported,
            );
            proof {
                let shown = series@.take(i + 1);
                assert(shown.drop_last() =~= series@.take(i as int));
                assert(exported.values() =~= snapshot.sources.values().map_values(
                    |v: SourceValues| shown.last().of(v),
                ));
                assert(out@ == source_exposition(
                    shown,
                    snapshot.sources.ids(),
                    snapshot.sources.values(),
                ));
            }
            i += 1;
        }
        assert(series@.take(i as int) =~= source_series_list());
        let ghost start = out@;
        let series = sink_series();
        let mut j: usize = 0;
        while j < series.len()
            invariant
                j <= series@.len(),
                out@ == start + sink_exposition(
                    series@.take(j as int),
                    snapshot.sinks.ids(),
                    snapshot.sinks.values(),
                ),
            decreases series@.len() - j,
        {
            let exporting = series[j];
            let export = |_id: &str, values: &SinkValues| -> (value: u64)
                ensures value == exporting.of(*values)
            {
                exporting.extract(values)
            };
            let exported = snapshot.sinks.mapped(export);
            push_series(
                &mut out,
                exporting.name(),
                exporting.help(),
                exporting.kind(),
                "sink",
                &exported,
            );
            proof {
                let shown = series@.take(j + 1);
                assert(shown.drop_last() =~= series@.take(j as int));
                assert(exported.values() =~= snapshot.sinks.values().map_values(
                    |v: SinkValues| shown.last().of(v),
                ));
                assert(out@ =~= start + sink_exposition(
                    shown,
                    snapshot.sinks.ids(),
                    snapshot.sinks.values(),
                ));
            }
            j += 1;
        }
        assert(series@.take(j as int) =~= sink_series_list());
        out
    }
}

/// No two exported series share a name: a duplicate would break scraping.
pub proof fn series_names_are_unique(
    source: SourceSeries,
    other_source: SourceSeries,
    sink: SinkSeries,
    other_sink: SinkSeries,
)
    ensures
        source != other_source ==> source.title() != other_source.title(),
        sink != other_sink ==> sink.title() != other_sink.title(),
        source.title() != sink.title(),
{
    reveal_strlit("rustper_source_events_total");
    reveal_strlit("rustper_source_bytes_total");
    reveal_strlit("rustper_source_batches_total");
    reveal_strlit("rustper_source_commits_total");
    reveal_strlit("rustper_source_rebalances_total");
    reveal_strlit("rustper_source_in_flight_bytes");
    reveal_strlit("rustper_source_in_flight_batches");
    reveal_strlit("rustper_sink_events_total");
    reveal_strlit("rustper_sink_events_dropped_total");
    reveal_strlit("rustper_sink_batches_total");
    reveal_strlit("rustper_sink_write_errors_total");
    reveal_strlit("rustper_sink_retries_total");
    reveal_strlit("rustper_sink_queue_depth");
    // Names of equal length differ in one character at least.
    assert("rustper_source_bytes_total"@[9] != "rustper_sink_batches_total"@[9]);
    assert("rustper_source_bytes_total"@[9] != "rustper_sink_retries_total"@[9]);
    assert("rustper_source_batches_total"@[15] != "rustper_source_commits_total"@[15]);
    assert("rustper_source_rebalances_total"@[9] != "rustper_sink_write_errors_total"@[9]);
    assert("rustper_sink_batches_total"@[13] != "rustper_sink_retries_total"@[13]);
    assert("rustper_source_events_total"@.len() == 27);
    assert("rustper_source_bytes_total"@.len() == 26);
    assert("rustper_source_batches_total"@.len() == 28);
    assert("rustper_source_commits_total"@.len() == 28);
    assert("rustper_source_rebalances_total"@.len() == 31);
    assert("rustper_source_in_flight_bytes"@.len() == 30);
    assert("rustper_source_in_flight_batches"@.len() == 32);
    assert("rustper_sink_events_total"@.len() == 25);
    assert("rustper_sink_events_dropped_total"@.len() == 33);
    assert("rustper_sink_batches_total"@.len() == 26);
    assert("rustper_sink_write_errors_total"@.len() == 31);
    assert("rustper_sink_retries_total"@.len() == 26);
    assert("rustper_sink_queue_depth"@.len() == 24);
}

/// The counters of every component at one moment.
#[derive(Debug, Clone)]
pub struct Snapshot {
    /// When the copy was made, in nanoseconds of a clock that never runs
    /// backwards.
    pub taken_at: u64,
    pub sources: IdMap<SourceValues>,
    pub sinks: IdMap<SinkValues>,
}

/// A per-second rate: `count` things in `elapsed_ns` nanoseconds. Where no time
/// has passed the count is zero, so that the rate is zero too.
#[derive(Debug, Clone, Copy, PartialEq, Eq, Structural)]
pub struct Rate {
    pub count: u64,
    pub elapsed_ns: u64,
}

/// Per-second rates between two snapshots.
#[derive(Debug, Clone)]
pub struct Rates {
    pub elapsed_ns: u64,
    pub sources: IdMap<SourceRates>,
    pub sinks: IdMap<SinkRates>,
}

#[derive(Debug, Clone, Copy, PartialEq, Eq, Structural)]
pub struct SourceRates {
    pub events_per_second: Rate,
    pub bytes_per_second: Rate,
    pub rebalances: u64,
    pub in_flight_bytes: u64,
    pub in_flight_batches: u64,
    pub events_total: u64,
}

#[derive(Debug, Clone, Copy, PartialEq, Eq, Structural)]
pub struct SinkRates {
    pub events_per_second: Rate,
    pub dropped_per_second: Rate,
    pub retries: u64,
    pub write_errors: u64,
    pub queue_depth: u64,
    pub events_total: u64,
    pub dropped_total: u64,
}

/// The difference, or zero where it would be negative.
pub open spec fn difference_or_zero(now: u64, was: u64) -> u64 {
    if now >= was {
        (now - was) as u64
    } else {
        0
    }
}

/// The rate of a counter that went from `was` to `now`.
pub open spec fn rate_between(now: u64, was: u64, elapsed_ns: u64) -> Rate {
    Rate {
        count: if elapsed_ns > 0 {
            difference_or_zero(now, was)
        } else {
            0
        },
        elapsed_ns,
    }
}

pub open spec fn source_rates(now: SourceValues, was: SourceValues, elapsed_ns: u64) -> SourceRates {
    SourceRates {
        events_per_second: rate_between(now.events_in, was.events_in, elapsed_ns),
        bytes_per_second: rate_between(now.bytes_in, was.bytes_in, elapsed_ns),
        rebalances: now.rebalances,
        in_flight_bytes: now.in_flight_bytes,
        in_flight_batches: now.in_flight_batches,
        events_total: now.events_in,
    }
}

pub open spec fn sink_rates(now: SinkValues, was: SinkValues, elapsed_ns: u64) -> SinkRates {
    SinkRates {
        events_per_second: rate_between(now.events_out, was.events_out, elapsed_ns),
        dropped_per_second: rate_between(now.events_dropped, was.events_dropped, elapsed_ns),
        retries: now.retries,
        write_errors: now.write_errors,
        queue_depth: now.queue_depth,
        events_total: now.events_out,
        dropped_total: now.events_dropped,
    }
}

/// What an earlier snapshot says of a component; `zero` where it knows none.
pub open spec fn earlier<V>(was: Map<Seq<char>, V>, id: Seq<char>, zero: V) -> V {
    if was.contains_key(id) {
        was[id]
    } else {
        zero
    }
}

fn earlier_values<V: Copy>(was: &IdMap<V>, id: &str, zero: V) -> (values: V)
    ensures
        values == earlier(was@, id@, zero),
{
    match was.get(id) {
        Some(values) => *values,
        None => zero,
    }
}

fn per_second(now: u64, was: u64, elapsed_ns: u64) -> (rate: Rate)
    ensures
        rate == rate_between(now, was, elapsed_ns),
{
    Rate {
        count: if elapsed_ns > 0 {
            now.saturating_sub(was)
        } else {
            0
        },
        elapsed_ns,
    }
}

fn source_rates_between(
    now: &SourceValues,
    was: &SourceValues,
    elapsed_ns: u64,
) -> (rates: SourceRates)
    ensures
        rates == source_rates(*now, *was, elapsed_ns),
{
    SourceRates {
        events_per_second: per_second(now.events_in, was.events_in, elapsed_ns),
        bytes_per_second: per_second(now.bytes_in, was.bytes_in, elapsed_ns),
        rebalances: now.rebalances,
        in_flight_bytes: now.in_flight_bytes,
        in_flight_batches: now.in_flight_batches,
        events_total: now.events_in,
    }
}

fn sink_rates_between(now: &SinkValues, was: &SinkValues, elapsed_ns: u64) -> (rates: SinkRates)
    ensures
        rates == sink_rates(*now, *was, elapsed_ns),
{
    SinkRates {
        events_per_second: per_second(now.events_out, was.events_out, elapsed_ns),
        dropped_per_second: per_second(now.events_dropped, was.events_dropped, elapsed_ns),
        retries: now.retries,
        write_errors: now.write_errors,
        queue_depth: now.queue_depth,
        events_total: now.events_out,
        dropped_total: now.events_dropped,
    }
}

/// `rates` are those of `now` relative to the snapshot `was`.
pub open spec fn rates_between(now: Snapshot, was: Snapshot, rates: Rates) -> bool {
    &&& rates.elapsed_ns == difference_or_zero(now.taken_at, was.taken_at)
    &&& rates.sources.ids() == now.sources.ids()
    &&& rates.sources.values().len() == now.sources.ids().len()
    &&& forall|i: int|
        0 <= i < now.sources.ids().len() ==> #[trigger] rates.sources.values()[i] == source_rates(
            now.sources.values()[i],
            earlier(was.sources@, now.sources.ids()[i], no_source_values()),
            rates.elapsed_ns,
        )
    &&& rates.sinks.ids() == now.sinks.ids()
    &&& rates.sinks.values().len() == now.sinks.ids().len()
    &&& forall|i: int|
        0 <= i < now.sinks.ids().len() ==> #[trigger] rates.sinks.values()[i] == sink_rates(
            now.sinks.values()[i],
            earlier(was.sinks@, now.sinks.ids()[i], no_sink_values()),
            rates.elapsed_ns,
        )
}

impl Snapshot {
    /// Rates of `self` relative to the earlier snapshot `previous`.
    ///
    /// Counters are monotonic, so a difference can only underflow if the two
    /// snapshots are passed the wrong way round; saturating turns that into a
    /// zero rather than a panic in a reporting path.
    pub fn rates_since(&self, previous: &Self) -> (rates: Rates)
        ensures
            rates_between(*self, *previous, rates),
    {
        let elapsed_ns: u64 = self.taken_at.saturating_sub(previous.taken_at);
        let rate_source = |id: &str, now: &SourceValues| -> (rates: SourceRates)
            ensures rates == source_rates(
                *now,
                earlier(previous.sources@, id@, no_source_values()),
                elapsed_ns,
            )
        {
            let was = earlier_values(&previous.sources, id, SourceValues::default());
            source_rates_between(now, &was, elapsed_ns)
        };
        let rate_sink = |id: &str, now: &SinkValues| -> (rates: SinkRates)
            ensures rates == sink_rates(
                *now,
                earlier(previous.sinks@, id@, no_sink_values()),
                elapsed_ns,
            )
        {
            let was = earlier_values(&previous.sinks, id, SinkValues::default());
            sink_rates_between(now, &was, elapsed_ns)
        };
        Rates {
            elapsed_ns,
            sources: self.sources.mapped(rate_source),
            sinks: self.sinks.mapped(rate_sink),
        }
    }
}

/// A rate depends on what was counted in between, not on the running total:
/// starting both counts higher by the same amount changes nothing.
pub proof fn rates_come_from_the_delta(now: u64, was: u64, more: u64, elapsed_ns: u64)
    requires
        now + more <= u64::MAX,
        was + more <= u64::MAX,
    ensures
        rate_between((now + more) as u64, (was + more) as u64, elapsed_ns) == rate_between(
            now,
            was,
            elapsed_ns,
        ),
{
}

/// Snapshots taken at the same moment, or passed the wrong way round, give a
/// rate of zero.
pub proof fn no_progress_is_a_zero_rate(now: u64, was: u64, elapsed_ns: u64)
    requires
        elapsed_ns == 0 || now <= was,
    ensures
        rate_between(now, was, elapsed_ns).count == 0,
{
}

/// Each source series exports the counter it is named after, with its own name, help
/// text and kind, and all of them are exported, once.
pub proof fn every_source_series_exports_its_counter(values: SourceValues)
    ensures
        source_series_list().len() == 7,
        source_series_list()[0] == SourceSeries::EventsTotal,
        source_series_list()[1] == SourceSeries::BytesTotal,
        source_series_list()[2] == SourceSeries::BatchesTotal,
        source_series_list()[3] == SourceSeries::CommitsTotal,
        source_series_list()[4] == SourceSeries::RebalancesTotal,
        source_series_list()[5] == SourceSeries::InFlightBytes,
        source_series_list()[6] == SourceSeries::InFlightBatches,
        source_series_list().no_duplicates(),
        source_series_list().contains(SourceSeries::EventsTotal),
        SourceSeries::EventsTotal.of(values) == values.events_in,
        SourceSeries::EventsTotal.title() == "rustper_source_events_total"@,
        SourceSeries::EventsTotal.description() == "Events consumed and committed."@,
        kind_text(SourceSeries::EventsTotal.is_gauge()) == "counter"@,
        source_series_list().contains(SourceSeries::BytesTotal),
        SourceSeries::BytesTotal.of(values) == values.bytes_in,
        SourceSeries::BytesTotal.title() == "rustper_source_bytes_total"@,
        SourceSeries::BytesTotal.description() == "Payload bytes consumed."@,
        kind_text(SourceSeries::BytesTotal.is_gauge()) == "counter"@,
        source_series_list().contains(SourceSeries::BatchesTotal),
        SourceSeries::BatchesTotal.of(values) == values.batches_in,
        SourceSeries::BatchesTotal.title() == "rustper_source_batches_total"@,
        SourceSeries::BatchesTotal.description() == "Batches dispatched to the fan-out."@,
        kind_text(SourceSeries::BatchesTotal.is_gauge()) == "counter"@,
        source_series_list().contains(SourceSeries::CommitsTotal),
        SourceSeries::CommitsTotal.of(values) == values.commits,
        SourceSeries::CommitsTotal.title() == "rustper_source_commits_total"@,
        SourceSeries::CommitsTotal.description() == "Offset commits issued."@,
        kind_text(SourceSeries::CommitsTotal.is_gauge()) == "counter"@,
        source_series_list().contains(SourceSeries::RebalancesTotal),
        SourceSeries::RebalancesTotal.of(values) == values.rebalances,
        SourceSeries::RebalancesTotal.title() == "rustper_source_rebalances_total"@,
        SourceSeries::RebalancesTotal.description() == "Consumer group rebalances observed."@,
        kind_text(SourceSeries::RebalancesTotal.is_gauge()) == "counter"@,
        source_series_list().contains(SourceSeries::InFlightBytes),
        SourceSeries::InFlightBytes.of(values) == values.in_flight_bytes,
        SourceSeries::InFlightBytes.title() == "rustper_source_in_flight_bytes"@,
        SourceSeries::InFlightBytes.description() == "Bytes held by unacknowledged batches."@,
        kind_text(SourceSeries::InFlightBytes.is_gauge()) == "gauge"@,
        source_series_list().contains(SourceSeries::InFlightBatches),
        SourceSeries::InFlightBatches.of(values) == values.in_flight_batches,
        SourceSeries::InFlightBatches.title() == "rustper_source_in_flight_batches"@,
        SourceSeries::InFlightBatches.description() == "Unacknowledged batches."@,
        kind_text(SourceSeries::InFlightBatches.is_gauge()) == "gauge"@,
{
    let list = source_series_list();
    assert(list[0] == SourceSeries::EventsTotal);
    assert(list[1] == SourceSeries::BytesTotal);
    assert(list[2] == SourceSeries::BatchesTotal);
    assert(list[3] == SourceSeries::CommitsTotal);
    assert(list[4] == SourceSeries::RebalancesTotal);
    assert(list[5] == SourceSeries::InFlightBytes);
    assert(list[6] == SourceSeries::InFlightBatches);
}

/// Each sink series exports the counter it is named after, with its own name, help
/// text and kind, and all of them are exported, once.
pub proof fn every_sink_series_exports_its_counter(values: SinkValues)
    ensures
        sink_series_list().len() == 6,
        sink_series_list()[0] == SinkSeries::EventsTotal,
        sink_series_list()[1] == SinkSeries::EventsDroppedTotal,
        sink_series_list()[2] == SinkSeries::BatchesTotal,
        sink_series_list()[3] == SinkSeries::WriteErrorsTotal,
        sink_series_list()[4] == SinkSeries::RetriesTotal,
        sink_series_list()[5] == SinkSeries::QueueDepth,
        sink_series_list().no_duplicates(),
        sink_series_list().contains(SinkSeries::EventsTotal),
        SinkSeries::EventsTotal.of(values) == values.events_out,
        SinkSeries::EventsTotal.title() == "rustper_sink_events_total"@,
        SinkSeries::EventsTotal.description() == "Events written."@,
        kind_text(SinkSeries::EventsTotal.is_gauge()) == "counter"@,
        sink_series_list().contains(SinkSeries::EventsDroppedTotal),
        SinkSeries::EventsDroppedTotal.of(values) == values.events_dropped,
        SinkSeries::EventsDroppedTotal.title() == "rustper_sink_events_dropped_total"@,
        SinkSeries::EventsDroppedTotal.description() == "Events the sink refused to write."@,
        kind_text(SinkSeries::EventsDroppedTotal.is_gauge()) == "counter"@,
        sink_series_list().contains(SinkSeries::BatchesTotal),
        SinkSeries::BatchesTotal.of(values) == values.batches_written,
        SinkSeries::BatchesTotal.title() == "rustper_sink_batches_total"@,
        SinkSeries::BatchesTotal.description() == "Coalesced writes completed."@,
        kind_text(SinkSeries::BatchesTotal.is_gauge()) == "counter"@,
        sink_series_list().contains(SinkSeries::WriteErrorsTotal),
        SinkSeries::WriteErrorsTotal.of(values) == values.write_errors,
        SinkSeries::WriteErrorsTotal.title() == "rustper_sink_write_errors_total"@,
        SinkSeries::WriteErrorsTotal.description() == "Writes that failed after retries."@,
        kind_text(SinkSeries::WriteErrorsTotal.is_gauge()) == "counter"@,
        sink_series_list().contains(SinkSeries::RetriesTotal),
        SinkSeries::RetriesTotal.of(values) == values.retries,
        SinkSeries::RetriesTotal.title() == "rustper_sink_retries_total"@,
        SinkSeries::RetriesTotal.description() == "Write attempts retried."@,
        kind_text(SinkSeries::RetriesTotal.is_gauge()) == "counter"@,
        sink_series_list().contains(SinkSeries::QueueDepth),
        SinkSeries::QueueDepth.of(values) == values.queue_depth,
        SinkSeries::QueueDepth.title() == "rustper_sink_queue_depth"@,
        SinkSeries::QueueDepth.description() == "Envelopes waiting in the sink queue."@,
        kind_text(SinkSeries::QueueDepth.is_gauge()) == "gauge"@,
{
    let list = sink_series_list();
    assert(list[0] == SinkSeries::EventsTotal);
    assert(list[1] == SinkSeries::EventsDroppedTotal);
    assert(list[2] == SinkSeries::BatchesTotal);
    assert(list[3] == SinkSeries::WriteErrorsTotal);
    assert(list[4] == SinkSeries::RetriesTotal);
    assert(list[5] == SinkSeries::QueueDepth);
}

/// The lines of a series are one per component, in order.
proof fn lemma_samples_hold(
    title: Seq<char>,
    label: Seq<char>,
    ids: Seq<Seq<char>>,
    values: Seq<u64>,
    i: int,
) -> (around: (Seq<char>, Seq<char>))
    requires
        ids.len() == values.len(),
        0 <= i < ids.len(),
    ensures
        samples(title, label, ids, values) == around.0 + (title + "{"@ + label + "=\""@
            + label_value(ids[i]) + "\"} "@ + text::decimal(values[i] as nat) + "\n"@) + around.1,
    decreases ids.len(),
{
    let front = samples(title, label, ids.drop_last(), values.drop_last());
    let none = Seq::<char>::empty();
    if i == ids.len() - 1 {
        assert(samples(title, label, ids, values) =~= front + (title + "{"@ + label + "=\""@
            + label_value(ids[i]) + "\"} "@ + text::decimal(values[i] as nat) + "\n"@) + none);
        (front, none)
    } else {
        let (before, after) = lemma_samples_hold(
            title,
            label,
            ids.drop_last(),
            values.drop_last(),
            i,
        );
        let last = sample(title, label, ids.last(), values.last());
        assert(samples(title, label, ids, values) =~= before + (title + "{"@ + label + "=\""@
            + label_value(ids[i]) + "\"} "@ + text::decimal(values[i] as nat) + "\n"@) + (after
            + last));
        (before, after + last)
    }
}

proof fn lemma_regroup(
    a: Seq<char>,
    b: Seq<char>,
    c: Seq<char>,
    d: Seq<char>,
    e: Seq<char>,
)
    ensures
        a + (b + (c + d + e)) == a + b + c + d + e,
{
    assert(a + (b + (c + d + e)) =~= a + b + c + d + e);
}

proof fn lemma_append(a: Seq<char>, b: Seq<char>, c: Seq<char>)
    ensures
        (a + b) + c == a + (b + c),
{
    assert((a + b) + c =~= a + (b + c));
}

/// The exposition of some source series has, for each of them and for each component,
/// one line with the series' name, the component's id as label and the value in
/// decimal; and the two comment lines of the series.
pub proof fn the_source_exposition_holds_every_sample(
    series: Seq<SourceSeries>,
    ids: Seq<Seq<char>>,
    values: Seq<SourceValues>,
    s: int,
    i: int,
) -> (around: (Seq<char>, Seq<char>, Seq<char>))
    requires
        ids.len() == values.len(),
        0 <= s < series.len(),
        0 <= i < ids.len(),
    ensures
        ({
            let shown = series[s];
            let comments = "# HELP "@ + shown.title() + " "@ + shown.description() + "\n"@
                + "# TYPE "@ + shown.title() + " "@ + kind_text(shown.is_gauge()) + "\n"@;
            let line = shown.title() + "{"@ + "source"@ + "=\""@ + label_value(ids[i]) + "\"} "@
                + text::decimal(shown.of(values[i]) as nat) + "\n"@;
            source_exposition(series, ids, values) == around.0 + comments + around.1 + line + around.2
        }),
    decreases series.len(),
{
    let last = series.last();
    let exported = values.map_values(|v: SourceValues| last.of(v));
    let front = source_exposition(series.drop_last(), ids, values);
    let comments = header(last.title(), last.description(), kind_text(last.is_gauge()));
    let lines = samples(last.title(), "source"@, ids, exported);
    assert(source_exposition(series, ids, values) == front + (comments + lines));
    if s == series.len() - 1 {
        let (before, after) = lemma_samples_hold(last.title(), "source"@, ids, exported, i);
        lemma_regroup(
            front,
            comments,
            before,
            sample(last.title(), "source"@, ids[i], exported[i]),
            after,
        );
        (front, before, after)
    } else {
        let (a, b, c) = the_source_exposition_holds_every_sample(
            series.drop_last(),
            ids,
            values,
            s,
            i,
        );
        let shown = series[s];
        assert(series.drop_last()[s] == shown);
        let head = header(shown.title(), shown.description(), kind_text(shown.is_gauge()));
        let line = sample(shown.title(), "source"@, ids[i], shown.of(values[i]));
        lemma_append(a + head + b + line, c, comments + lines);
        (a, b, c + (comments + lines))
    }
}

/// The exposition of some sink series has, for each of them and for each component,
/// one line with the series' name, the component's id as label and the value in
/// decimal; and the two comment lines of the series.
pub proof fn the_sink_exposition_holds_every_sample(
    series: Seq<SinkSeries>,
    ids: Seq<Seq<char>>,
    values: Seq<SinkValues>,
    s: int,
    i: int,
) -> (around: (Seq<char>, Seq<char>, Seq<char>))
    requires
        ids.len() == values.len(),
        0 <= s < series.len(),
        0 <= i < ids.len(),
    ensures
        ({
            let shown = series[s];
            let comments = "# HELP "@ + shown.title() + " "@ + shown.description() + "\n"@
                + "# TYPE "@ + shown.title() + " "@ + kind_text(shown.is_gauge()) + "\n"@;
            let line = shown.title() + "{"@ + "sink"@ + "=\""@ + label_value(ids[i]) + "\"} "@
                + text::decimal(shown.of(values[i]) as nat) + "\n"@;
            sink_exposition(series, ids, values) == around.0 + comments + around.1 + line + around.2
        }),
    decreases series.len(),
{
    let last = series.last();
    let exported = values.map_values(|v: SinkValues| last.of(v));
    let front = sink_exposition(series.drop_last(), ids, values);
    let comments = header(last.title(), last.description(), kind_text(last.is_gauge()));
    let lines = samples(last.title(), "sink"@, ids, exported);
    assert(sink_exposition(series, ids, values) == front + (comments + lines));
    if s == series.len() - 1 {
        let (before, after) = lemma_samples_hold(last.title(), "sink"@, ids, exported, i);
        lemma_regroup(
            front,
            comments,
            before,
            sample(last.title(), "sink"@, ids[i], exported[i]),
            after,
        );
        (front, before, after)
    } else {
        let (a, b, c) = the_sink_exposition_holds_every_sample(
            series.drop_last(),
            ids,
            values,
            s,
            i,
        );
        let shown = series[s];
        assert(series.drop_last()[s] == shown);
        let head = header(shown.title(), shown.description(), kind_text(shown.is_gauge()));
        let line = sample(shown.title(), "sink"@, ids[i], shown.of(values[i]));
        lemma_append(a + head + b + line, c, comments + lines);
        (a, b, c + (comments + lines))
    }
}

/// Without components a series is its header alone, and each further component
/// adds one line at the end, so there are no other lines.
pub proof fn a_component_adds_one_line_to_a_series(
    title: Seq<char>,
    label: Seq<char>,
    ids: Seq<Seq<char>>,
    values: Seq<u64>,
    id: Seq<char>,
    value: u64,
)
    requires
        ids.len() == values.len(),
    ensures
        samples(title, label, Seq::empty(), Seq::empty()).len() == 0,
        samples(title, label, ids.push(id), values.push(value)) == samples(
            title,
            label,
            ids,
            values,
        ) + (title + "{"@ + label + "=\""@ + label_value(id) + "\"} "@ + text::decimal(
            value as nat,
        ) + "\n"@),
{
    assert(ids.push(id).drop_last() =~= ids);
    assert(values.push(value).drop_last() =~= values);
}

/// A snapshot copies every counter as it stands.
pub proof fn a_snapshot_copies_every_counter(source: SourceMetrics, sink: SinkMetrics)
    ensures
        source.copied().events_in == source.events_in,
        source.copied().bytes_in == source.bytes_in,
        source.copied().batches_in == source.batches_in,
        source.copied().commits == source.commits,
        source.copied().rebalances == source.rebalances,
        source.copied().in_flight_bytes == source.in_flight_bytes,
        source.copied().in_flight_batches == source.in_flight_batches,
        sink.copied().events_out == sink.events_out,
        sink.copied().events_dropped == sink.events_dropped,
        sink.copied().batches_written == sink.batches_written,
        sink.copied().write_errors == sink.write_errors,
        sink.copied().retries == sink.retries,
        sink.copied().queue_depth == sink.queue_depth,
{
}

/// New components start with every counter at zero.
pub proof fn counters_start_at_zero()
    ensures
        forall|series: SourceSeries| #[trigger] series.of(idle_source().copied()) == 0,
        forall|series: SinkSeries| #[trigger] series.of(idle_sink().copied()) == 0,
        forall|series: SourceSeries| #[trigger] series.of(no_source_values()) == 0,
        forall|series: SinkSeries| #[trigger] series.of(no_sink_values()) == 0,
{
}

/// A difference is what has to be added to get from the one to the other; it is
/// never negative.
pub proof fn a_difference_leads_from_one_to_the_other(now: u64, was: u64)
    ensures
        now >= was ==> was + difference_or_zero(now, was) == now,
        now < was ==> difference_or_zero(now, was) == 0,
{
}

/// A rate is what was counted in between and how long that took, and nothing where
/// no time has passed.
pub proof fn a_rate_is_what_was_counted_in_between(now: u64, was: u64, elapsed_ns: u64)
    ensures
        rate_between(now, was, elapsed_ns).elapsed_ns == elapsed_ns,
        elapsed_ns > 0 && now >= was ==> was + rate_between(now, was, elapsed_ns).count == now,
        elapsed_ns == 0 || now < was ==> rate_between(now, was, elapsed_ns).count == 0,
{
}

/// The rates of a source compare each of its counters with the same counter of
/// the same source before, or with zero where it was not there; totals and gauges
/// are those of now.
pub proof fn source_rates_compare_like_with_like(now: Snapshot, was: Snapshot, rates: Rates, i: int)
    requires
        rates_between(now, was, rates),
        0 <= i < now.sources.ids().len(),
        now.taken_at > was.taken_at,
    ensures
        ({
            &&& was.taken_at + rates.elapsed_ns == now.taken_at
            &&& rates.sources.ids() == now.sources.ids()
            &&& rates.sources.values().len() == now.sources.ids().len()
        }),
        ({
            let id = now.sources.ids()[i];
            let current = now.sources.values()[i];
            let rate = rates.sources.values()[i];
            let events_before = if was.sources@.contains_key(id) {
                was.sources@[id].events_in
            } else {
                0
            };
            let bytes_before = if was.sources@.contains_key(id) {
                was.sources@[id].bytes_in
            } else {
                0
            };
            &&& rates.sources.ids()[i] == id
            &&& was.taken_at + rate.events_per_second.elapsed_ns == now.taken_at
            &&& was.taken_at + rate.bytes_per_second.elapsed_ns == now.taken_at
            &&& current.events_in >= events_before ==> events_before + rate.events_per_second.count
                == current.events_in
            &&& current.bytes_in >= bytes_before ==> bytes_before + rate.bytes_per_second.count
                == current.bytes_in
            &&& rate.rebalances == current.rebalances
            &&& rate.in_flight_bytes == current.in_flight_bytes
            &&& rate.in_flight_batches == current.in_flight_batches
            &&& rate.events_total == current.events_in
        }),
{
    let rate = rates.sources.values()[i];
}

/// The rates of a sink compare each of its counters with the same counter of the
/// same sink before, or with zero where it was not there; totals and gauges are
/// those of now.
pub proof fn sink_rates_compare_like_with_like(now: Snapshot, was: Snapshot, rates: Rates, i: int)
    requires
        rates_between(now, was, rates),
        0 <= i < now.sinks.ids().len(),
        now.taken_at > was.taken_at,
    ensures
        ({
            &&& rates.sinks.ids() == now.sinks.ids()
            &&& rates.sinks.values().len() == now.sinks.ids().len()
        }),
        ({
            let id = now.sinks.ids()[i];
            let current = now.sinks.values()[i];
            let rate = rates.sinks.values()[i];
            let events_before = if was.sinks@.contains_key(id) {
                was.sinks@[id].events_out
            } else {
                0
            };
            let dropped_before = if was.sinks@.contains_key(id) {
                was.sinks@[id].events_dropped
            } else {
                0
            };
            &&& rates.sinks.ids()[i] == id
            &&& was.taken_at + rate.events_per_second.elapsed_ns == now.taken_at
            &&& was.taken_at + rate.dropped_per_second.elapsed_ns == now.taken_at
            &&& current.events_out >= events_before ==> events_before
                + rate.events_per_second.count == current.events_out
            &&& current.events_dropped >= dropped_before ==> dropped_before
                + rate.dropped_per_second.count == current.events_dropped
            &&& rate.retries == current.retries
            &&& rate.write_errors == current.write_errors
            &&& rate.queue_depth == current.queue_depth
            &&& rate.events_total == current.events_out
            &&& rate.dropped_total == current.events_dropped
        }),
{
    let rate = rates.sinks.values()[i];
}

/// Where no time has passed since the earlier snapshot, every rate is zero.
pub proof fn no_time_gives_no_rates(now: Snapshot, was: Snapshot, rates: Rates, i: int)
    requires
        rates_between(now, was, rates),
        now.taken_at <= was.taken_at,
    ensures
        rates.elapsed_ns == 0,
        0 <= i < now.sources.ids().len() ==> rates.sources.values()[i].events_per_second.count == 0
            && rates.sources.values()[i].bytes_per_second.count == 0,
        0 <= i < now.sinks.ids().len() ==> rates.sinks.values()[i].events_per_second.count == 0
            && rates.sinks.values()[i].dropped_per_second.count == 0,
{
}

/// The exposition shows every source series of every source, and behind them
/// every sink series of every sink.
pub proof fn the_exposition_shows_sources_and_sinks(metrics: Metrics)
    ensures
        metrics.exposition() == source_exposition(
            source_series_list(),
            metrics.sources().ids(),
            Seq::new(
                metrics.sources().values().len(),
                |i: int| metrics.sources().values()[i].copied(),
            ),
        ) + sink_exposition(
            sink_series_list(),
            metrics.sinks().ids(),
            Seq::new(
                metrics.sinks().values().len(),
                |i: int| metrics.sinks().values()[i].copied(),
            ),
        ),
{
    assert(Seq::new(
        metrics.sources().values().len(),
        |i: int| metrics.sources().values()[i].copied(),
    ) =~= metrics.sources().values().map_values(|m: SourceMetrics| m.copied()));
    assert(Seq::new(
        metrics.sinks().values().len(),
        |i: int| metrics.sinks().values()[i].copied(),
    ) =~= metrics.sinks().values().map_values(|m: SinkMetrics| m.copied()));
}

/// Every id given is registered, and no other.
pub proof fn the_ids_given_are_listed(ids: Seq<&str>, id: Seq<char>, i: int)
    ensures
        0 <= i < ids.len() ==> listed(ids, ids[i]@),
        (forall|j: int| 0 <= j < ids.len() ==> (#[trigger] ids[j])@ != id) ==> !listed(ids, id),
{
}

/// In a label only backslash, quote and line feed are escaped, each in its own
/// way.
pub proof fn only_special_characters_are_escaped_in_labels(c: char)
    ensures
        c != '\\' && c != '"' && c != '\n' ==> label_value(seq![c]) == seq![c],
        label_value(seq!['\\']) == seq!['\\', '\\'],
        label_value(seq!['"']) == seq!['\\', '"'],
        label_value(seq!['\n']) == seq!['\\', 'n'],
{
    lemma_label_of_one(c);
    lemma_label_of_one('\\');
    lemma_label_of_one('"');
    lemma_label_of_one('\n');
}

proof fn lemma_label_of_one(c: char)
    ensures
        label_value(seq![c]) == label_char(c),
{
    let one = seq![c];
    assert(one.drop_last() =~= Seq::<char>::empty());
    assert(label_value(one.drop_last()) =~= Seq::<char>::empty());
    assert(label_value(one) =~= label_char(c));
}

/// Each further source series adds its two comment lines and one line per component,
/// and there is nothing else in the exposition.
pub proof fn a_source_series_adds_its_comments_and_its_lines(
    series: Seq<SourceSeries>,
    next: SourceSeries,
    ids: Seq<Seq<char>>,
    values: Seq<SourceValues>,
)
    ensures
        source_exposition(Seq::empty(), ids, values).len() == 0,
        source_exposition(series.push(next), ids, values) == source_exposition(series, ids, values) + ((
        "# HELP "@ + next.title() + " "@ + next.description() + "\n"@ + "# TYPE "@ + next.title()
            + " "@ + kind_text(next.is_gauge()) + "\n"@) + samples(
            next.title(),
            "source"@,
            ids,
            Seq::new(values.len(), |i: int| next.of(values[i])),
        )),
{
    assert(series.push(next).drop_last() =~= series);
    assert(Seq::new(values.len(), |i: int| next.of(values[i])) =~= values.map_values(
        |v: SourceValues| next.of(v),
    ));
}

/// Each further sink series adds its two comment lines and one line per component,
/// and there is nothing else in the exposition.
pub proof fn a_sink_series_adds_its_comments_and_its_lines(
    series: Seq<SinkSeries>,
    next: SinkSeries,
    ids: Seq<Seq<char>>,
    values: Seq<SinkValues>,
)
    ensures
        sink_exposition(Seq::empty(), ids, values).len() == 0,
        sink_exposition(series.push(next), ids, values) == sink_exposition(series, ids, values) + ((
        "# HELP "@ + next.title() + " "@ + next.description() + "\n"@ + "# TYPE "@ + next.title()
            + " "@ + kind_text(next.is_gauge()) + "\n"@) + samples(
            next.title(),
            "sink"@,
            ids,
            Seq::new(values.len(), |i: int| next.of(values[i])),
        )),
{
    assert(series.push(next).drop_last() =~= series);
    assert(Seq::new(values.len(), |i: int| next.of(values[i])) =~= values.map_values(
        |v: SinkValues| next.of(v),
    ));
}

} // verus!
