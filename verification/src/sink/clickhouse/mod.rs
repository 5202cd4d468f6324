//! The ClickHouse sink: the built-in columns, or the payload's own keys.

pub mod grammar;
pub mod json;
pub mod reading;

use crate::config::{ClickhouseSchema, ClickhouseSinkConfig};
use crate::event;
use crate::event::{Event, EventBatch, EventView};
use crate::sink::clickhouse::json::{write_row, MetadataColumns, MetadataView, Rejection};
use crate::sink::{BatchSettings, WriteOutcome};
use crate::text;
use std::sync::Arc;
use vstd::prelude::*;

verus! {

/// A ClickHouse client: where to connect, as whom, and with which settings.
#[verifier::external_type_specification]
#[verifier::external_body]
pub struct ExClickhouseClient(::clickhouse::Client);

/// Endpoint, database, user and password of a client.
pub uninterp spec fn client_login(client: ::clickhouse::Client) -> Seq<Seq<char>>;

/// The ClickHouse settings that a client passes with every statement.
pub uninterp spec fn client_settings(client: ::clickhouse::Client) -> Map<Seq<char>, Seq<char>>;

/// No settings.
pub open spec fn no_settings() -> Map<Seq<char>, Seq<char>> {
    Map::empty()
}

/// `Client::default`, then `with_url`, `with_database`, `with_user` and
/// `with_password`: a client for that endpoint and login, without settings. The
/// database named last wins over one in the endpoint.
#[verifier::external_body]
fn connect(endpoint: &str, database: &str, user: &str, password: &str) -> (client: ::clickhouse::Client)
    ensures
        client_login(client) == seq![endpoint@, database@, user@, password@],
        client_settings(client) == no_settings(),
{
    ::clickhouse::Client::default()
        .with_url(endpoint)
        .with_database(database)
        .with_user(user)
        .with_password(password)
}

/// `Client::with_setting`: the setting has the new value; the rest is as before.
#[verifier::external_body]
fn with_setting(client: ::clickhouse::Client, name: &str, value: &str) -> (changed: ::clickhouse::Client)
    ensures
        client_login(changed) == client_login(client),
        client_settings(changed) == client_settings(client).insert(name@, value@),
{
    client.with_setting(name, value)
}

/// The settings that a configuration asks for.
pub open spec fn requested_settings(config: ClickhouseSinkConfig) -> Map<Seq<char>, Seq<char>> {
    let none = no_settings();
    let counted = if config.allow_errors_num > 0 {
        none.insert(
            "input_format_allow_errors_num"@,
            text::decimal(config.allow_errors_num as nat),
        )
    } else {
        none
    };
    match config.allow_errors_ratio {
        Some(ratio) => counted.insert("input_format_allow_errors_ratio"@, ratio@),
        None => counted,
    }
}

/// ClickHouse is told how many bad rows to skip exactly where some are allowed,
/// and what share of them where one is configured; nothing else is set.
pub proof fn bad_rows_are_skipped_as_configured(config: ClickhouseSinkConfig, key: Seq<char>)
    ensures
        requested_settings(config).contains_key("input_format_allow_errors_num"@)
            <==> config.allow_errors_num > 0,
        config.allow_errors_num > 0 ==> text::read_decimal(
            requested_settings(config)["input_format_allow_errors_num"@],
        ) == Some(config.allow_errors_num as nat),
        requested_settings(config).contains_key("input_format_allow_errors_ratio"@)
            <==> config.allow_errors_ratio is Some,
        config.allow_errors_ratio matches Some(ratio) ==> requested_settings(
            config,
        )["input_format_allow_errors_ratio"@] == ratio@,
        requested_settings(config).contains_key(key) ==> key == "input_format_allow_errors_num"@
            || key == "input_format_allow_errors_ratio"@,
{
    reveal_strlit("input_format_allow_errors_num");
    reveal_strlit("input_format_allow_errors_ratio");
    assert("input_format_allow_errors_num"@.len() == 29);
    assert("input_format_allow_errors_ratio"@.len() == 31);
    text::a_decimal_reads_back_as_the_number(config.allow_errors_num as nat);
}

/// A ClickHouse sink.
pub struct ClickhouseSink {
    id: String,
    table: String,
    client: ::clickhouse::Client,
    batch: BatchSettings,
    schema: ClickhouseSchema,
    metadata: MetadataColumns,
}

/// What a [`ClickhouseSink`] is set up to do.
pub ghost struct SinkPlan {
    pub id: Seq<char>,
    pub table: Seq<char>,
    pub login: Seq<Seq<char>>,
    pub settings: Map<Seq<char>, Seq<char>>,
    pub batch: BatchSettings,
    pub schema: ClickhouseSchema,
    pub metadata: MetadataView,
}

impl View for ClickhouseSink {
    type V = SinkPlan;

    closed spec fn view(&self) -> SinkPlan {
        SinkPlan {
            id: self.id@,
            table: self.table@,
            login: client_login(self.client),
            settings: client_settings(self.client),
            batch: self.batch,
            schema: self.schema,
            metadata: self.metadata@,
        }
    }
}

impl ClickhouseSink {
    pub fn new(id: &str, config: &ClickhouseSinkConfig) -> (sink: Self)
        ensures
            sink@ == (SinkPlan {
                id: id@,
                table: config.table@,
                login: seq![config.endpoint@, config.database@, config.user@, config.password@],
                settings: requested_settings(*config),
                batch: BatchSettings {
                    max_events: config.batch_max_events,
                    max_bytes: config.batch_max_bytes,
                    linger_ms: config.batch_linger_ms,
                },
                schema: config.schema,
                metadata: config.metadata_columns@,
            }),
    {
        let mut client = connect(
            config.endpoint.as_str(),
            config.database.as_str(),
            config.user.as_str(),
            config.password.as_str(),
        );
        // Lets ClickHouse skip rows the router cannot cheaply reject itself,
        // rather than failing an otherwise good batch.
        if config.allow_errors_num > 0 {
            client = with_setting(
                client,
                "input_format_allow_errors_num",
                text::decimal_string(config.allow_errors_num).as_str(),
            );
        }
        if let Some(ratio) = &config.allow_errors_ratio {
            client = with_setting(client, "input_format_allow_errors_ratio", ratio.as_str());
        }
        ClickhouseSink {
            id: id.to_owned(),
            table: config.table.clone(),
            client,
            batch: BatchSettings {
                max_events: config.batch_max_events,
                max_bytes: config.batch_max_bytes,
                linger_ms: config.batch_linger_ms,
            },
            schema: config.schema,
            metadata: config.metadata_columns.clone(),
        }
    }

    pub fn name(&self) -> (name: &str)
        ensures
            name@ == self@.id,
    {
        self.id.as_str()
    }

    pub fn table(&self) -> (table: &str)
        ensures
            table@ == self@.table,
    {
        self.table.as_str()
    }

    pub fn client(&self) -> (client: &::clickhouse::Client)
        ensures
            client_login(*client) == self@.login,
            client_settings(*client) == self@.settings,
    {
        &self.client
    }

    pub fn batch_settings(&self) -> (batch: BatchSettings)
        ensures
            batch == self@.batch,
    {
        self.batch
    }

    pub fn schema(&self) -> (schema: ClickhouseSchema)
        ensures
            schema == self@.schema,
    {
        self.schema
    }

    /// The statement that JSON rows are inserted with.
    pub fn insert_statement(&self) -> (statement: String)
        ensures
            statement@ == "INSERT INTO "@ + quoted_identifier(self@.table)
                + " FORMAT JSONEachRow"@,
    {
        let mut statement = "INSERT INTO ".to_owned();
        statement.append(escape_identifier(self.table.as_str()).as_str());
        statement.append(" FORMAT JSONEachRow");
        statement
    }

    /// The rows of a write in `json` mode. See [`json_rows`].
    pub fn json_rows(&self, batches: &[Arc<EventBatch>]) -> (rows: JsonRows)
        requires
            event::all_events(batches@).len() <= u64::MAX,
        ensures
            rows.holds(self@.metadata, event::all_events(batches@)),
            rows.buffer@ == encoded_rows(self@.metadata, event::all_events(batches@)),
            rows.outcome.written == accepted_rows(event::all_events(batches@)),
            rows.outcome.written + rows.outcome.dropped == event::all_events(batches@).len(),
            rows.first_rejection == first_refused(event::all_events(batches@)),
    {
        json_rows(batches, &self.metadata)
    }
}

/// One row of the built-in schema.
#[derive(Debug, Clone, Copy)]
pub struct EventRow<'a> {
    pub timestamp_ms: i64,
    pub source_component: &'a str,
    pub source_topic: &'a str,
    pub source_partition: i32,
    pub source_offset: i64,
    pub key: &'a [u8],
    pub payload: &'a [u8],
}

impl<'a> EventRow<'a> {
    /// The row is that of `event`: its coordinates, key and payload, with zero
    /// for an absent timestamp and nothing for an absent key.
    pub open spec fn is_row_of(self, event: EventView) -> bool {
        &&& self.timestamp_ms == json::timestamp_or_zero(event)
        &&& self.source_component@ == event.component_id
        &&& self.source_topic@ == event.topic
        &&& self.source_partition == event.partition
        &&& self.source_offset == event.offset
        &&& self.key@ == event.key_bytes()
        &&& self.payload@ == event.payload
    }
}

/// The row that an event is written as.
pub fn event_row(event: &Event) -> (row: EventRow<'_>)
    ensures
        row.is_row_of(event@),
        event.timestamp_ms matches Some(timestamp) ==> row.timestamp_ms == timestamp,
        event.timestamp_ms is None ==> row.timestamp_ms == 0,
        row.source_component@ == (*event.source.component_id)@,
        row.source_topic@ == (*event.source.topic)@,
        row.source_partition == event.source.partition,
        row.source_offset == event.source.offset,
        event.key matches Some(key) ==> row.key@ == event::contents(key),
        event.key is None ==> row.key@.len() == 0,
        row.payload@ == event::contents(event.payload),
{
    let timestamp_ms: i64 = match event.timestamp_ms {
        Some(timestamp) => timestamp,
        None => 0,
    };
    EventRow {
        timestamp_ms,
        source_component: &*event.source.component_id,
        source_topic: &*event.source.topic,
        source_partition: event.source.partition,
        source_offset: event.source.offset,
        key: event.key_bytes(),
        payload: event.payload.as_ref(),
    }
}

/// The rows that some batches are written as: one per event, in order.
pub fn event_rows<'a>(batches: &'a [Arc<EventBatch>]) -> (rows: Vec<EventRow<'a>>)
    ensures
        rows@.len() == event::all_events(batches@).len(),
        forall|i: int|
            0 <= i < rows@.len() ==> (#[trigger] rows@[i]).is_row_of(
                event::all_events(batches@)[i],
            ),
{
    let mut rows: Vec<EventRow<'a>> = Vec::new();
    let mut i: usize = 0;
    while i < batches.len()
        invariant
            i <= batches@.len(),
            rows@.len() == event::all_events(batches@.take(i as int)).len(),
            forall|j: int|
                0 <= j < rows@.len() ==> (#[trigger] rows@[j]).is_row_of(
                    event::all_events(batches@.take(i as int))[j],
                ),
        decreases batches@.len() - i,
    {
        let events = batches[i].events();
        let ghost before = event::all_events(batches@.take(i as int));
        let ghost views = event::event_views(events@);
        let mut j: usize = 0;
        while j < events.len()
            invariant
                j <= events@.len(),
                views == event::event_views(events@),
                rows@.len() == before.len() + j,
                forall|k: int|
                    0 <= k < rows@.len() ==> (#[trigger] rows@[k]).is_row_of((before + views)[k]),
            decreases events@.len() - j,
        {
            let row = event_row(&events[j]);
            assert((before + views)[before.len() + j] == views[j as int]);
            rows.push(row);
            j += 1;
        }
        proof {
            assert(batches@.take(i + 1).drop_last() =~= batches@.take(i as int));
            assert(event::all_events(batches@.take(i + 1)) =~= before + views);
        }
        i += 1;
    }
    assert(batches@.take(i as int) =~= batches@);
    rows
}

/// The encoded rows of a write in `json` mode.
#[derive(Debug)]
pub struct JsonRows {
    /// The rows, one line each.
    pub buffer: Vec<u8>,
    pub outcome: WriteOutcome,
    /// Why the first event that could not be written was dropped, and its
    /// offset. One line is logged per write, not per row: a topic full of
    /// malformed payloads must not turn the log into the bottleneck.
    pub first_rejection: Option<(Rejection, i64)>,
}

/// The events whose payload is a JSON object, as rows in order.
pub open spec fn encoded_rows(columns: MetadataView, events: Seq<EventView>) -> Seq<u8>
    decreases events.len(),
{
    if events.len() == 0 {
        Seq::empty()
    } else {
        let before = encoded_rows(columns, events.drop_last());
        match json::payload_body(events.last().payload) {
            Ok(body) => before + json::json_row(columns, events.last(), body),
            Err(_) => before,
        }
    }
}

/// How many of the events have a payload that is a JSON object.
pub open spec fn accepted_rows(events: Seq<EventView>) -> nat
    decreases events.len(),
{
    if events.len() == 0 {
        0
    } else {
        accepted_rows(events.drop_last()) + if json::payload_body(events.last().payload) is Ok {
            1nat
        } else {
            0
        }
    }
}

/// Why the first event that is not a JSON object is refused, and its offset.
pub open spec fn first_refused(events: Seq<EventView>) -> Option<(Rejection, i64)>
    decreases events.len(),
{
    if events.len() == 0 {
        None
    } else {
        match first_refused(events.drop_last()) {
            Some(refused) => Some(refused),
            None => match json::payload_body(events.last().payload) {
                Ok(_) => None,
                Err(rejection) => Some((rejection, events.last().offset)),
            },
        }
    }
}

/// Each further event adds its own row if its payload is an object; otherwise it
/// adds nothing but the count of what was dropped, and the first such event is the
/// one reported.
pub proof fn every_event_adds_its_row_or_is_dropped(
    columns: MetadataView,
    events: Seq<EventView>,
    next: EventView,
)
    ensures
        encoded_rows(columns, Seq::empty()).len() == 0,
        accepted_rows(Seq::empty()) == 0,
        first_refused(Seq::empty()) is None,
        match json::payload_body(next.payload) {
            Ok(body) => {
                &&& encoded_rows(columns, events.push(next)) == encoded_rows(columns, events)
                    + json::json_row(columns, next, body)
                &&& accepted_rows(events.push(next)) == accepted_rows(events) + 1
                &&& first_refused(events.push(next)) == first_refused(events)
            },
            Err(rejection) => {
                &&& encoded_rows(columns, events.push(next)) == encoded_rows(columns, events)
                &&& accepted_rows(events.push(next)) == accepted_rows(events)
                &&& first_refused(events) is Some ==> first_refused(events.push(next))
                    == first_refused(events)
                &&& first_refused(events) is None ==> first_refused(events.push(next)) == Some(
                    (rejection, next.offset),
                )
            },
        },
{
    assert(events.push(next).drop_last() =~= events);
}

proof fn lemma_accepted_rows(events: Seq<EventView>)
    ensures
        accepted_rows(events) <= events.len(),
    decreases events.len(),
{
    if events.len() > 0 {
        lemma_accepted_rows(events.drop_last());
    }
}

impl JsonRows {
    /// The rows are those of `events`, and every event is either written or
    /// counted as dropped.
    pub open spec fn holds(self, columns: MetadataView, events: Seq<EventView>) -> bool {
        &&& self.buffer@ == encoded_rows(columns, events)
        &&& self.outcome.written == accepted_rows(events)
        &&& self.outcome.dropped == events.len() - accepted_rows(events)
        &&& self.first_rejection == first_refused(events)
    }

    /// Whether anything is left to insert.
    pub fn needs_insert(&self) -> (needed: bool)
        ensures
            needed == (self.outcome.written > 0),
    {
        self.outcome.written > 0
    }
}

/// Encodes the payloads as `JSONEachRow`, letting ClickHouse map by column name
/// and convert every type. Events that are no JSON object are dropped and
/// counted.
pub fn json_rows(batches: &[Arc<EventBatch>], metadata: &MetadataColumns) -> (rows: JsonRows)
    requires
        event::all_events(batches@).len() <= u64::MAX,
    ensures
        rows.holds(metadata@, event::all_events(batches@)),
        rows.buffer@ == encoded_rows(metadata@, event::all_events(batches@)),
        rows.outcome.written == accepted_rows(event::all_events(batches@)),
        rows.outcome.written + rows.outcome.dropped == event::all_events(batches@).len(),
        rows.first_rejection == first_refused(event::all_events(batches@)),
{
    let mut rows = JsonRows {
        buffer: Vec::new(),
        outcome: WriteOutcome::default(),
        first_rejection: None,
    };
    let ghost all = event::all_events(batches@);
    let mut i: usize = 0;
    while i < batches.len()
        invariant
            i <= batches@.len(),
            all == event::all_events(batches@),
            all.len() <= u64::MAX,
            rows.holds(metadata@, event::all_events(batches@.take(i as int))),
        decreases batches@.len() - i,
    {
        let events = batches[i].events();
        let ghost before = event::all_events(batches@.take(i as int));
        let ghost views = event::event_views(events@);
        proof {
            event::lemma_all_events_prefix(batches@, i + 1, batches@.len() as int);
            assert(batches@.take(batches@.len() as int) =~= batches@);
            assert(batches@.take(i + 1).drop_last() =~= batches@.take(i as int));
            assert(before + views.take(0) =~= before);
        }
        let mut j: usize = 0;
        while j < events.len()
            invariant
                j <= events@.len(),
                views == event::event_views(events@),
                before.len() + views.len() <= u64::MAX,
                rows.holds(metadata@, before + views.take(j as int)),
            decreases events@.len() - j,
        {
            let ghost seen = before + views.take(j as int);
            let ghost now = before + views.take(j + 1);
            proof {
                assert(now.drop_last() =~= seen);
                assert(now.last() == events@[j as int]@);
                lemma_accepted_rows(seen);
            }
            match write_row(&mut rows.buffer, &events[j], metadata) {
                Ok(()) => {
                    rows.outcome.written = rows.outcome.written + 1;
                },
                Err(rejection) => {
                    rows.outcome.dropped = rows.outcome.dropped + 1;
                    if rows.first_rejection.is_none() {
                        rows.first_rejection = Some((rejection, events[j].source.offset));
                    }
                },
            }
            j += 1;
        }
        proof {
            assert(views.take(j as int) =~= views);
            assert(event::all_events(batches@.take(i + 1)) =~= before + views);
        }
        i += 1;
    }
    assert(batches@.take(i as int) =~= batches@);
    rows
}

/// What a write in `event` mode amounts to once ClickHouse has accepted its rows:
/// every event is written, and none dropped.
pub fn event_outcome(batches: &[Arc<EventBatch>]) -> (outcome: WriteOutcome)
    requires
        event::all_events(batches@).len() <= u64::MAX,
    ensures
        outcome.written == event::all_events(batches@).len(),
        outcome.dropped == 0,
{
    let mut written: u64 = 0;
    let mut i: usize = 0;
    while i < batches.len()
        invariant
            i <= batches@.len(),
            written == event::all_events(batches@.take(i as int)).len(),
            event::all_events(batches@).len() <= u64::MAX,
        decreases batches@.len() - i,
    {
        proof {
            assert(batches@.take(i + 1).drop_last() =~= batches@.take(i as int));
            event::lemma_all_events_prefix(batches@, i + 1, batches@.len() as int);
            assert(batches@.take(batches@.len() as int) =~= batches@);
        }
        written = written + batches[i].len() as u64;
        i += 1;
    }
    assert(batches@.take(i as int) =~= batches@);
    WriteOutcome::written(written)
}

/// A backtick and a backslash are escaped, everything else stays.
pub open spec fn identifier_char(c: char) -> Seq<char> {
    if c == '`' || c == '\\' {
        seq!['\\', c]
    } else {
        seq![c]
    }
}

pub open spec fn identifier_body(name: Seq<char>) -> Seq<char>
    decreases name.len(),
{
    if name.len() == 0 {
        Seq::empty()
    } else {
        identifier_body(name.drop_last()) + identifier_char(name.last())
    }
}

/// A table name between backticks.
pub open spec fn quoted_identifier(name: Seq<char>) -> Seq<char> {
    seq!['`'] + identifier_body(name) + seq!['`']
}

/// Quotes a table identifier for interpolation into the INSERT statement.
pub fn escape_identifier(name: &str) -> (quoted: String)
    ensures
        quoted@ == quoted_identifier(name@),
{
    let mut quoted = String::new();
    quoted.push('`');
    for c in it: name.chars()
        invariant
            it.seq() == name@,
            quoted@ == seq!['`'] + identifier_body(name@.take(it.index() as int)),
    {
        if c == '`' || c == '\\' {
            quoted.push('\\');
        }
        quoted.push(c);
        proof {
            let n = it.index() as int;
            assert(name@.take(n + 1).drop_last() =~= name@.take(n));
            assert(name@.take(n + 1).last() == c);
            assert(quoted@ =~= seq!['`'] + identifier_body(name@.take(n + 1)));
        }
    }
    assert(name@.take(name@.len() as int) =~= name@);
    quoted.push('`');
    assert(quoted@ =~= quoted_identifier(name@));
    quoted
}

/// What ClickHouse reads back from the inside of a quoted identifier: a
/// backslash escapes a backtick or a backslash, and the first bare backtick ends
/// the identifier. `None` where the identifier does not end with the text, and
/// for other escapes, which are not read here.
pub open spec fn read_identifier(text: Seq<char>) -> Option<Seq<char>>
    decreases text.len(),
{
    if text.len() == 0 {
        None
    } else if text[0] == '`' {
        if text.len() == 1 {
            Some(Seq::empty())
        } else {
            None
        }
    } else if text[0] == '\\' {
        if text.len() < 2 || (text[1] != '`' && text[1] != '\\') {
            None
        } else {
            match read_identifier(text.skip(2)) {
                Some(rest) => Some(seq![text[1]] + rest),
                None => None,
            }
        }
    } else {
        match read_identifier(text.skip(1)) {
            Some(rest) => Some(seq![text[0]] + rest),
            None => None,
        }
    }
}

proof fn lemma_identifier_body_front(name: Seq<char>)
    requires
        name.len() > 0,
    ensures
        identifier_body(name) == identifier_char(name[0]) + identifier_body(name.skip(1)),
    decreases name.len(),
{
    if name.len() == 1 {
        assert(name.drop_last() =~= Seq::<char>::empty());
        assert(name.skip(1) =~= Seq::<char>::empty());
        assert(identifier_body(name.drop_last()) =~= Seq::<char>::empty());
        assert(identifier_body(name) =~= identifier_char(name[0]) + identifier_body(
            name.skip(1),
        ));
    } else {
        lemma_identifier_body_front(name.drop_last());
        assert(name.skip(1).drop_last() =~= name.drop_last().skip(1));
        assert(identifier_body(name) =~= identifier_char(name[0]) + identifier_body(
            name.skip(1),
        ));
    }
}

/// Any table name, once quoted, is read back as that name: it can neither end
/// the quoting early nor leave it open.
pub proof fn a_quoted_identifier_reads_back_as_the_name(name: Seq<char>)
    ensures
        quoted_identifier(name).first() == '`',
        quoted_identifier(name).last() == '`',
        read_identifier(quoted_identifier(name).skip(1)) == Some(name),
    decreases name.len(),
{
    let inner = quoted_identifier(name).skip(1);
    assert(inner =~= identifier_body(name) + seq!['`']);
    if name.len() == 0 {
        assert(identifier_body(name) =~= Seq::<char>::empty());
        assert(inner =~= seq!['`']);
        assert(name =~= Seq::<char>::empty());
    } else {
        let rest = name.skip(1);
        a_quoted_identifier_reads_back_as_the_name(rest);
        lemma_identifier_body_front(name);
        let after = identifier_body(rest) + seq!['`'];
        assert(quoted_identifier(rest).skip(1) =~= after);
        assert(inner =~= identifier_char(name[0]) + after);
        if name[0] == '`' || name[0] == '\\' {
            assert(inner.skip(2) =~= after);
        } else {
            assert(inner.skip(1) =~= after);
        }
        assert(seq![name[0]] + rest =~= name);
    }
}

/// In a quoted name only backtick and backslash are escaped; every other character
/// stands for itself.
pub proof fn only_backtick_and_backslash_are_escaped(name: Seq<char>, c: char)
    ensures
        identifier_body(Seq::empty()).len() == 0,
        c != '`' && c != '\\' ==> identifier_body(name.push(c)) == identifier_body(name).push(c),
        c == '`' || c == '\\' ==> identifier_body(name.push(c)) == identifier_body(name).push(
            '\\',
        ).push(c),
        quoted_identifier(name) == seq!['`'] + identifier_body(name) + seq!['`'],
{
    assert(name.push(c).drop_last() =~= name);
    if c == '`' || c == '\\' {
        assert(identifier_body(name.push(c)) =~= identifier_body(name).push('\\').push(c));
    } else {
        assert(identifier_body(name.push(c)) =~= identifier_body(name).push(c));
    }
}

/// A row of the built-in schema shows every field of its event: there is exactly
/// one way to fill it in.
pub proof fn a_row_shows_every_field(row: EventRow<'_>, event: EventView)
    requires
        row.is_row_of(event),
    ensures
        event.timestamp_ms matches Some(timestamp) ==> row.timestamp_ms == timestamp,
        event.timestamp_ms is None ==> row.timestamp_ms == 0,
        row.source_component@ == event.component_id,
        row.source_topic@ == event.topic,
        row.source_partition == event.partition,
        row.source_offset == event.offset,
        event.key matches Some(key) ==> row.key@ == key,
        event.key is None ==> row.key@.len() == 0,
        row.payload@ == event.payload,
{
}

/// What a write holds leaves nothing out: its buffer is the rows of the events, and
/// every event is counted, as written or as dropped.
pub proof fn encoded_rows_leave_nothing_out(
    rows: JsonRows,
    columns: MetadataView,
    events: Seq<EventView>,
)
    requires
        rows.holds(columns, events),
    ensures
        rows.buffer@ == encoded_rows(columns, events),
        rows.outcome.written == accepted_rows(events),
        rows.outcome.written + rows.outcome.dropped == events.len(),
        rows.first_rejection == first_refused(events),
{
}

} // verus!
