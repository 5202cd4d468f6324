//! Building `JSONEachRow` lines from raw Kafka payloads.
//!
//! Deliberately does not parse JSON. ClickHouse performs every type conversion,
//! so the router never needs to know that a column is `Decimal(18, 4)`; all it
//! must do is hand over a syntactically valid object per row. Parsing every
//! message into a tree to achieve the same result would put an allocation per
//! node on the hot path at several hundred thousand messages a second, for no
//! gain.

use crate::event::{Event, EventView};
use crate::text;
use vstd::prelude::*;
use vstd::utf8::*;

verus! {

/// Names for the Kafka coordinates, which a JSON payload cannot carry itself.
///
/// Only the fields set here are injected; the rest of the row is the payload,
/// untouched.
#[derive(Debug, PartialEq, Eq)]
pub struct MetadataColumns {
    pub topic: Option<String>,
    pub partition: Option<String>,
    pub offset: Option<String>,
    pub timestamp: Option<String>,
    pub key: Option<String>,
}

/// The column names of a [`MetadataColumns`].
pub ghost struct MetadataView {
    pub topic: Option<Seq<char>>,
    pub partition: Option<Seq<char>>,
    pub offset: Option<Seq<char>>,
    pub timestamp: Option<Seq<char>>,
    pub key: Option<Seq<char>>,
}

impl MetadataView {
    /// No column is declared.
    pub open spec fn is_empty(self) -> bool {
        &&& self.topic is None
        &&& self.partition is None
        &&& self.offset is None
        &&& self.timestamp is None
        &&& self.key is None
    }
}

/// The text of an optional string.
pub open spec fn optional_text(value: Option<String>) -> Option<Seq<char>> {
    match value {
        Some(text) => Some(text@),
        None => None,
    }
}

impl View for MetadataColumns {
    type V = MetadataView;

    open spec fn view(&self) -> MetadataView {
        MetadataView {
            topic: optional_text(self.topic),
            partition: optional_text(self.partition),
            offset: optional_text(self.offset),
            timestamp: optional_text(self.timestamp),
            key: optional_text(self.key),
        }
    }
}

impl Default for MetadataColumns {
    fn default() -> (columns: Self)
        ensures
            columns.topic is None,
            columns.partition is None,
            columns.offset is None,
            columns.timestamp is None,
            columns.key is None,
    {
        MetadataColumns { topic: None, partition: None, offset: None, timestamp: None, key: None }
    }
}

impl Clone for MetadataColumns {
    fn clone(&self) -> (copy: Self)
        ensures
            copy@ == self@,
    {
        MetadataColumns {
            topic: self.topic.clone(),
            partition: self.partition.clone(),
            offset: self.offset.clone(),
            timestamp: self.timestamp.clone(),
            key: self.key.clone(),
        }
    }
}

impl MetadataColumns {
    pub fn is_empty(&self) -> (empty: bool)
        ensures
            empty == self@.is_empty(),
    {
        self.topic.is_none() && self.partition.is_none() && self.offset.is_none()
            && self.timestamp.is_none() && self.key.is_none()
    }
}

/// Why a row was not written.
#[derive(Debug, Clone, Copy, PartialEq, Eq, Structural)]
pub enum Rejection {
    Empty,
    NotAnObject,
}

impl Rejection {
    pub fn as_str(self) -> (reason: &'static str)
        ensures
            reason@ == (match self {
                Rejection::Empty => "payload is empty"@,
                Rejection::NotAnObject => "payload is not a JSON object"@,
            }),
    {
        match self {
            Self::Empty => "payload is empty",
            Self::NotAnObject => "payload is not a JSON object",
        }
    }
}

/// ASCII whitespace: space, tab, line feed, form feed, carriage return.
pub open spec fn is_space(byte: u8) -> bool {
    byte == 0x20 || byte == 0x09 || byte == 0x0A || byte == 0x0C || byte == 0x0D
}

/// `bytes` without the whitespace at both ends.
pub open spec fn trimmed(bytes: Seq<u8>) -> Seq<u8>
    decreases bytes.len(),
{
    if bytes.len() == 0 {
        bytes
    } else if is_space(bytes.first()) {
        trimmed(bytes.drop_first())
    } else if is_space(bytes.last()) {
        trimmed(bytes.drop_last())
    } else {
        bytes
    }
}

/// What lies between the outer braces of a payload, or why there is nothing.
pub open spec fn payload_body(payload: Seq<u8>) -> Result<Seq<u8>, Rejection> {
    let bare = trimmed(payload);
    if bare.len() == 0 {
        Err(Rejection::Empty)
    } else if bare.first() == 0x7B && bare.last() == 0x7D {
        Ok(trimmed(bare.subrange(1, bare.len() - 1)))
    } else {
        Err(Rejection::NotAnObject)
    }
}

/// The lower-case hexadecimal digit of a value below sixteen.
pub open spec fn hex_digit(value: nat) -> char {
    if value < 10 {
        (0x30 + value) as char
    } else {
        (0x57 + value) as char
    }
}

/// One character of a JSON string, escaped per RFC 8259.
pub open spec fn escaped_char(c: char) -> Seq<char> {
    if c == '"' {
        seq!['\\', '"']
    } else if c == '\\' {
        seq!['\\', '\\']
    } else if c == '\n' {
        seq!['\\', 'n']
    } else if c == '\r' {
        seq!['\\', 'r']
    } else if c == '\t' {
        seq!['\\', 't']
    } else if (c as u32) < 0x20 {
        seq!['\\', 'u', '0', '0', hex_digit(c as nat / 16), hex_digit(c as nat % 16)]
    } else {
        seq![c]
    }
}

/// The escaped characters of `text`.
pub open spec fn escaped(text: Seq<char>) -> Seq<char>
    decreases text.len(),
{
    if text.len() == 0 {
        seq![]
    } else {
        escaped(text.drop_last()) + escaped_char(text.last())
    }
}

/// `text` as a JSON string literal.
pub open spec fn json_string(text: Seq<char>) -> Seq<char> {
    seq!['"'] + escaped(text) + seq!['"']
}

/// A member whose value is a string.
pub open spec fn string_member(name: Seq<char>, value: Seq<char>) -> Seq<u8> {
    encode_utf8(json_string(name) + seq![':'] + json_string(value))
}

/// A member whose value is a number.
pub open spec fn number_member(name: Seq<char>, value: int) -> Seq<u8> {
    encode_utf8(json_string(name) + seq![':'] + text::signed_decimal(value))
}

/// What `String::from_utf8_lossy` makes of `bytes`.
pub uninterp spec fn lossy_text(bytes: Seq<u8>) -> Seq<char>;

/// The text of some bytes: what they encode, with ill-formed UTF-8 replaced.
pub open spec fn readable_text(bytes: Seq<u8>) -> Seq<char> {
    if valid_utf8(bytes) {
        decode_utf8(bytes)
    } else {
        lossy_text(bytes)
    }
}

/// `parts`, separated by commas.
pub open spec fn joined(parts: Seq<Seq<u8>>) -> Seq<u8>
    decreases parts.len(),
{
    if parts.len() == 0 {
        seq![]
    } else if parts.len() == 1 {
        parts[0]
    } else {
        joined(parts.drop_last()) + seq![0x2Cu8] + parts.last()
    }
}

/// `parts` with one more part at the end, if there is one.
pub open spec fn with_part(parts: Seq<Seq<u8>>, part: Option<Seq<u8>>) -> Seq<Seq<u8>> {
    match part {
        Some(part) => parts.push(part),
        None => parts,
    }
}

/// The members injected for the declared metadata columns, in column order.
pub open spec fn metadata_members(columns: MetadataView, event: EventView) -> Seq<Seq<u8>> {
    let topic = match columns.topic {
        Some(name) => Some(string_member(name, event.topic)),
        None => None,
    };
    let partition = match columns.partition {
        Some(name) => Some(number_member(name, event.partition as int)),
        None => None,
    };
    let offset = match columns.offset {
        Some(name) => Some(number_member(name, event.offset as int)),
        None => None,
    };
    let timestamp = match columns.timestamp {
        Some(name) => Some(number_member(name, timestamp_or_zero(event))),
        None => None,
    };
    let key = match columns.key {
        Some(name) => Some(string_member(name, readable_text(event.key_bytes()))),
        None => None,
    };
    with_part(
        with_part(with_part(with_part(with_part(seq![], topic), partition), offset), timestamp),
        key,
    )
}

/// The event's timestamp, zero where it has none.
pub open spec fn timestamp_or_zero(event: EventView) -> int {
    match event.timestamp_ms {
        Some(timestamp) => timestamp as int,
        None => 0,
    }
}

/// The members of a row: the injected ones, then the payload's own.
pub open spec fn row_members(columns: MetadataView, event: EventView, body: Seq<u8>) -> Seq<
    Seq<u8>,
> {
    if body.len() == 0 {
        metadata_members(columns, event)
    } else {
        metadata_members(columns, event).push(body)
    }
}

/// The `JSONEachRow` line for an event whose payload has the given body: the
/// payload itself where nothing is injected, else an object that holds the
/// injected members too.
pub open spec fn json_row(columns: MetadataView, event: EventView, body: Seq<u8>) -> Seq<u8> {
    if columns.is_empty() {
        event.payload + seq![0x0Au8]
    } else {
        seq![0x7Bu8] + joined(row_members(columns, event, body)) + seq![0x7Du8, 0x0Au8]
    }
}

/// Without metadata columns the row is the payload, byte for byte and with the
/// whitespace in and around it, and one line feed: `JSONEachRow` takes whitespace
/// between its rows.
pub proof fn without_columns_the_payload_passes_through(
    columns: MetadataView,
    event: EventView,
    body: Seq<u8>,
)
    requires
        columns.is_empty(),
    ensures
        json_row(columns, event, body) == event.payload.push(0x0A),
{
    assert(json_row(columns, event, body) =~= event.payload.push(0x0A));
}

fn is_ascii_space(byte: u8) -> (space: bool)
    ensures
        space == is_space(byte),
{
    byte == 0x20 || byte == 0x09 || byte == 0x0A || byte == 0x0C || byte == 0x0D
}

/// The payload's body: everything between the outer braces.
///
/// This is the whole of the validation done here, and it looks only at the
/// front and back of the slice. Anything subtler — a field whose value does not
/// fit its column — is left to ClickHouse, which can skip bad rows itself and
/// reports how many it skipped.
pub fn object_body(payload: &[u8]) -> (body: Result<&[u8], Rejection>)
    ensures
        match body {
            Ok(bytes) => payload_body(payload@) == Ok::<Seq<u8>, Rejection>(bytes@),
            Err(rejection) => payload_body(payload@) == Err::<Seq<u8>, Rejection>(rejection),
        },
{
    let bare = trim_ascii(payload);
    if bare.is_empty() {
        return Err(Rejection::Empty);
    }
    if bare[0] == 0x7B && bare[bare.len() - 1] == 0x7D {
        Ok(trim_ascii(vstd::slice::slice_subrange(bare, 1, bare.len() - 1)))
    } else {
        Err(Rejection::NotAnObject)
    }
}

/// Strips ASCII whitespace from both ends.
pub fn trim_ascii(bytes: &[u8]) -> (bare: &[u8])
    ensures
        bare@ == trimmed(bytes@),
{
    let mut start: usize = 0;
    let mut end: usize = bytes.len();
    assert(bytes@.subrange(0, end as int) =~= bytes@);
    while start < end && is_ascii_space(bytes[start])
        invariant
            start <= end == bytes@.len(),
            trimmed(bytes@) == trimmed(bytes@.subrange(start as int, end as int)),
        decreases end - start,
    {
        assert(bytes@.subrange(start as int, end as int).drop_first() =~= bytes@.subrange(
            start + 1,
            end as int,
        ));
        start += 1;
    }
    while start < end && is_ascii_space(bytes[end - 1])
        invariant
            start <= end <= bytes@.len(),
            start < end ==> !is_space(bytes@[start as int]),
            trimmed(bytes@) == trimmed(bytes@.subrange(start as int, end as int)),
        decreases end - start,
    {
        assert(bytes@.subrange(start as int, end as int).drop_last() =~= bytes@.subrange(
            start as int,
            end - 1,
        ));
        end -= 1;
    }
    vstd::slice::slice_subrange(bytes, start, end)
}

/// `String::from_utf8_lossy` of std: the text that `bytes` encode, with every
/// ill-formed sequence replaced. On well-formed UTF-8 it is the decoded text.
#[verifier::external_body]
fn utf8_lossy(bytes: &[u8]) -> (text: String)
    ensures
        text@ == lossy_text(bytes@),
        valid_utf8(bytes@) ==> text@ == decode_utf8(bytes@),
{
    String::from_utf8_lossy(bytes).into_owned()
}

fn push_char(out: &mut Vec<u8>, c: char)
    ensures
        final(out)@ == old(out)@ + encode_utf8(seq![c]),
{
    text::push_utf8(out, c);
    proof {
        text::lemma_encode_one(c);
    }
}

fn hex_char(value: u8) -> (c: char)
    requires
        value < 16,
    ensures
        c == hex_digit(value as nat),
{
    if value < 10 {
        (0x30u8 + value) as char
    } else {
        (0x57u8 + value) as char
    }
}

/// Appends one escaped character.
fn write_escaped(out: &mut Vec<u8>, c: char)
    ensures
        final(out)@ == old(out)@ + encode_utf8(escaped_char(c)),
{
    let ghost before = out@;
    if c == '"' || c == '\\' || c == '\n' || c == '\r' || c == '\t' {
        let second: char = if c == '\n' {
            'n'
        } else if c == '\r' {
            'r'
        } else if c == '\t' {
            't'
        } else {
            c
        };
        push_char(out, '\\');
        push_char(out, second);
        proof {
            text::lemma_encode_concat(seq!['\\'], seq![second]);
            assert(seq!['\\'] + seq![second] =~= escaped_char(c));
        }
        assert(out@ =~= before + encode_utf8(escaped_char(c)));
    } else if (c as u32) < 0x20 {
        let value: u8 = c as u8;
        let high = hex_char(value / 16);
        let low = hex_char(value % 16);
        push_char(out, '\\');
        push_char(out, 'u');
        push_char(out, '0');
        push_char(out, '0');
        push_char(out, high);
        push_char(out, low);
        proof {
            text::lemma_encode_concat(seq!['\\'], seq!['u']);
            text::lemma_encode_concat(seq!['\\'] + seq!['u'], seq!['0']);
            text::lemma_encode_concat(seq!['\\'] + seq!['u'] + seq!['0'], seq!['0']);
            text::lemma_encode_concat(seq!['\\'] + seq!['u'] + seq!['0'] + seq!['0'], seq![high]);
            text::lemma_encode_concat(
                seq!['\\'] + seq!['u'] + seq!['0'] + seq!['0'] + seq![high],
                seq![low],
            );
            assert(seq!['\\'] + seq!['u'] + seq!['0'] + seq!['0'] + seq![high] + seq![low]
                =~= escaped_char(c));
        }
        assert(out@ =~= before + encode_utf8(escaped_char(c)));
    } else {
        push_char(out, c);
    }
}

/// Appends `text` as a JSON string literal.
pub fn write_json_text(out: &mut Vec<u8>, text: &str)
    ensures
        final(out)@ == old(out)@ + encode_utf8(json_string(text@)),
{
    let ghost before = out@;
    push_char(out, '"');
    assert(text@.take(0) =~= Seq::<char>::empty());
    assert(escaped(text@.take(0)) =~= Seq::<char>::empty());
    assert(out@ =~= before + encode_utf8(seq!['"']) + encode_utf8(escaped(text@.take(0))));
    for c in chars: text.chars()
        invariant
            chars.seq() == text@,
            out@ == before + encode_utf8(seq!['"']) + encode_utf8(
                escaped(text@.take(chars.index() as int)),
            ),
    {
        let ghost done = chars.index() as int;
        write_escaped(out, c);
        proof {
            assert(text@.take(done + 1).drop_last() =~= text@.take(done));
            text::lemma_encode_concat(escaped(text@.take(done)), escaped_char(c));
            assert(out@ =~= before + encode_utf8(seq!['"']) + encode_utf8(
                escaped(text@.take(done + 1)),
            ));
        }
    }
    push_char(out, '"');
    proof {
        assert(text@.take(text@.len() as int) =~= text@);
        text::lemma_encode_concat(seq!['"'], escaped(text@));
        text::lemma_encode_concat(seq!['"'] + escaped(text@), seq!['"']);
        assert(out@ =~= before + encode_utf8(json_string(text@)));
    }
}

/// Escapes per RFC 8259.
///
/// Kafka keys are arbitrary bytes, so anything that is not valid UTF-8 is
/// replaced rather than emitted raw, which would produce a JSON document
/// ClickHouse rejects for the whole batch.
pub fn write_json_string(out: &mut Vec<u8>, value: &[u8])
    ensures
        final(out)@ == old(out)@ + encode_utf8(json_string(readable_text(value@))),
{
    let text = utf8_lossy(value);
    write_json_text(out, text.as_str());
}

/// The decimal rendering of `value`.
pub fn itoa(value: i64) -> (text: String)
    ensures
        text@ == text::signed_decimal(value as int),
{
    let mut out = String::new();
    if value < 0 {
        out.push('-');
        let magnitude: u64 = if value == i64::MIN {
            0x8000_0000_0000_0000u64
        } else {
            (-value) as u64
        };
        text::push_decimal(&mut out, magnitude);
    } else {
        text::push_decimal(&mut out, value as u64);
    }
    assert(out@ =~= text::signed_decimal(value as int));
    out
}

/// Appends a member name and its colon.
pub fn write_key(out: &mut Vec<u8>, name: &str)
    ensures
        final(out)@ == old(out)@ + encode_utf8(json_string(name@) + seq![':']),
{
    let ghost before = out@;
    write_json_string(out, name.as_bytes());
    push_char(out, ':');
    proof {
        encode_utf8_valid_utf8(name@);
        encode_utf8_decode_utf8(name@);
        text::lemma_encode_concat(json_string(name@), seq![':']);
        assert(out@ =~= before + encode_utf8(json_string(name@) + seq![':']));
    }
}

/// Appends a member with a number for its value.
pub fn write_number_field(out: &mut Vec<u8>, name: &str, value: i64)
    ensures
        final(out)@ == old(out)@ + number_member(name@, value as int),
{
    let ghost before = out@;
    write_key(out, name);
    let digits = itoa(value);
    text::append_bytes(out, digits.as_str().as_bytes());
    proof {
        text::lemma_encode_concat(json_string(name@) + seq![':'], digits@);
        assert(out@ =~= before + number_member(name@, value as int));
    }
}

/// Appends a member with a string for its value.
pub fn write_string_field(out: &mut Vec<u8>, name: &str, value: &[u8])
    ensures
        final(out)@ == old(out)@ + string_member(name@, readable_text(value@)),
{
    let ghost before = out@;
    write_key(out, name);
    write_json_string(out, value);
    proof {
        text::lemma_encode_concat(
            json_string(name@) + seq![':'],
            json_string(readable_text(value@)),
        );
        assert(out@ =~= before + string_member(name@, readable_text(value@)));
    }
}

/// Puts a comma between members: nothing in front of the first one.
fn separate(out: &mut Vec<u8>, first: bool)
    ensures
        final(out)@ == if first {
            old(out)@
        } else {
            old(out)@.push(0x2C)
        },
{
    if !first {
        out.push(0x2C);
    }
}

/// Parts are joined in order with one comma between two of them, and with nothing
/// in front of the first or behind the last.
pub proof fn parts_are_separated_by_commas(parts: Seq<Seq<u8>>, part: Seq<u8>)
    ensures
        joined(Seq::empty()) == Seq::<u8>::empty(),
        parts.len() == 0 ==> joined(parts.push(part)) == part,
        parts.len() > 0 ==> joined(parts.push(part)) == joined(parts) + seq![0x2Cu8] + part,
{
    assert(parts.push(part).drop_last() =~= parts);
}

/// Adding one part to a non-empty join puts a comma in between.
proof fn lemma_joined_push(parts: Seq<Seq<u8>>, part: Seq<u8>)
    ensures
        joined(parts.push(part)) == if parts.len() == 0 {
            part
        } else {
            joined(parts) + seq![0x2Cu8] + part
        },
{
    assert(parts.push(part).drop_last() =~= parts);
}

/// Appends a string member for `column`, if it is declared.
fn write_string_column(
    out: &mut Vec<u8>,
    column: &Option<String>,
    value: &[u8],
    first: bool,
    Ghost(base): Ghost<Seq<u8>>,
    Ghost(parts): Ghost<Seq<Seq<u8>>>,
) -> (still_first: bool)
    requires
        old(out)@ == base + joined(parts),
        first == (parts.len() == 0),
    ensures
        ({
            let part = match optional_text(*column) {
                Some(name) => Some(string_member(name, readable_text(value@))),
                None => None,
            };
            &&& final(out)@ == base + joined(with_part(parts, part))
            &&& still_first == (with_part(parts, part).len() == 0)
        }),
{
    match column {
        Some(name) => {
            separate(out, first);
            write_string_field(out, name.as_str(), value);
            proof {
                let part = string_member(name@, readable_text(value@));
                lemma_joined_push(parts, part);
                assert(out@ =~= base + joined(parts.push(part)));
            }
            false
        },
        None => first,
    }
}

/// Appends a number member for `column`, if it is declared.
fn write_number_column(
    out: &mut Vec<u8>,
    column: &Option<String>,
    value: i64,
    first: bool,
    Ghost(base): Ghost<Seq<u8>>,
    Ghost(parts): Ghost<Seq<Seq<u8>>>,
) -> (still_first: bool)
    requires
        old(out)@ == base + joined(parts),
        first == (parts.len() == 0),
    ensures
        ({
            let part = match optional_text(*column) {
                Some(name) => Some(number_member(name, value as int)),
                None => None,
            };
            &&& final(out)@ == base + joined(with_part(parts, part))
            &&& still_first == (with_part(parts, part).len() == 0)
        }),
{
    match column {
        Some(name) => {
            separate(out, first);
            write_number_field(out, name.as_str(), value);
            proof {
                let part = number_member(name@, value as int);
                lemma_joined_push(parts, part);
                assert(out@ =~= base + joined(parts.push(part)));
            }
            false
        },
        None => first,
    }
}

/// Appends one `JSONEachRow` line for `event` to `out`.
///
/// With no metadata columns configured the payload is copied through verbatim.
pub fn write_row(out: &mut Vec<u8>, event: &Event, metadata: &MetadataColumns) -> (row: Result<
    (),
    Rejection,
>)
    ensures
        match payload_body(event@.payload) {
            Ok(body) => row is Ok && final(out)@ == old(out)@ + json_row(metadata@, event@, body),
            Err(rejection) => row == Err::<(), Rejection>(rejection) && final(out)@ == old(out)@,
        },
{
    let body = match object_body(event.payload.as_ref()) {
        Ok(body) => body,
        Err(rejection) => {
            return Err(rejection);
        },
    };
    let ghost before = out@;
    if metadata.is_empty() {
        text::append_bytes(out, event.payload.as_ref());
        out.push(0x0A);
        assert(out@ =~= before + json_row(metadata@, event@, body@));
        return Ok(());
    }
    out.push(0x7B);
    let ghost base = before + seq![0x7Bu8];
    let ghost columns = metadata@;
    let ghost view = event@;
    let ghost none: Seq<Seq<u8>> = seq![];
    assert(out@ =~= base + joined(none));

    let ghost topic = match columns.topic {
        Some(name) => Some(string_member(name, view.topic)),
        None => None,
    };
    let ghost partition = match columns.partition {
        Some(name) => Some(number_member(name, view.partition as int)),
        None => None,
    };
    let ghost offset = match columns.offset {
        Some(name) => Some(number_member(name, view.offset as int)),
        None => None,
    };
    let ghost stamp = match columns.timestamp {
        Some(name) => Some(number_member(name, timestamp_or_zero(view))),
        None => None,
    };
    proof {
        encode_utf8_valid_utf8(view.topic);
        encode_utf8_decode_utf8(view.topic);
    }
    let first = write_string_column(
        out,
        &metadata.topic,
        event.source.topic.as_bytes(),
        true,
        Ghost(base),
        Ghost(none),
    );
    let ghost with_topic = with_part(none, topic);
    let first = write_number_column(
        out,
        &metadata.partition,
        event.source.partition as i64,
        first,
        Ghost(base),
        Ghost(with_topic),
    );
    let ghost with_partition = with_part(with_topic, partition);
    let first = write_number_column(
        out,
        &metadata.offset,
        event.source.offset,
        first,
        Ghost(base),
        Ghost(with_partition),
    );
    let ghost with_offset = with_part(with_partition, offset);
    let timestamp: i64 = match event.timestamp_ms {
        Some(timestamp) => timestamp,
        None => 0,
    };
    let first = write_number_column(
        out,
        &metadata.timestamp,
        timestamp,
        first,
        Ghost(base),
        Ghost(with_offset),
    );
    let ghost with_timestamp = with_part(with_offset, stamp);
    let first = write_string_column(
        out,
        &metadata.key,
        event.key_bytes(),
        first,
        Ghost(base),
        Ghost(with_timestamp),
    );
    let ghost parts = metadata_members(columns, view);
    assert(out@ == base + joined(parts));
    assert(first == (parts.len() == 0));
    // An empty payload object means there is nothing to separate from, and
    // emitting a comma here would produce invalid JSON.
    if !body.is_empty() {
        separate(out, first);
        text::append_bytes(out, body);
        proof {
            lemma_joined_push(parts, body@);
            assert(out@ =~= base + joined(parts.push(body@)));
        }
    }
    out.push(0x7D);
    out.push(0x0A);
    assert(out@ =~= before + json_row(columns, view, body@));
    Ok(())
}

/// In a string only quote, backslash and control characters are escaped; every
/// other character stands for itself.
pub proof fn only_what_must_be_is_escaped(c: char)
    ensures
        c as u32 >= 0x20 && c != '"' && c != '\\' ==> escaped_char(c) == seq![c],
        escaped_char('"') == seq!['\\', '"'],
        escaped_char('\\') == seq!['\\', '\\'],
        escaped_char('\n') == seq!['\\', 'n'],
        escaped_char('\r') == seq!['\\', 'r'],
        escaped_char('\t') == seq!['\\', 't'],
        (c as u32) < 0x20 && c != '\n' && c != '\r' && c != '\t' ==> escaped_char(c).len() == 6
            && escaped_char(c)[0] == '\\' && escaped_char(c)[1] == 'u' && escaped_char(c)[2] == '0'
            && escaped_char(c)[3] == '0' && escaped_char(c)[4] == (if (c as u32) < 0x10 {
            '0'
        } else {
            '1'
        }) && (c as u32 % 0x10 < 10 ==> escaped_char(c)[5] as u32 == '0' as u32 + c as u32 % 0x10)
            && (c as u32 % 0x10 >= 10 ==> escaped_char(c)[5] as u32 == 'a' as u32 + c as u32 % 0x10
            - 10),
{
}

/// Texts are escaped character by character.
pub proof fn characters_are_escaped_one_by_one(text: Seq<char>, c: char)
    ensures
        escaped(Seq::empty()).len() == 0,
        escaped(text.push(c)) == escaped(text) + escaped_char(c),
{
    assert(text.push(c).drop_last() =~= text);
}

} // verus!
