//! Reading rows back: what a row says of its event, to whoever parses it.

use crate::event::EventView;
use crate::sink::clickhouse::grammar;
use crate::sink::clickhouse::json;
use crate::sink::clickhouse::json::{MetadataColumns, MetadataView, Rejection};
use crate::text;
use vstd::prelude::*;
use vstd::utf8::*;

verus! {

/// A value that a metadata column can hold.
pub ghost enum Scalar {
    Number(int),
    Text(Seq<char>),
}

/// What is written denotes `value`: decimal digits a number, quotes a text.
pub open spec fn denotes(written: Seq<char>, value: Scalar) -> bool {
    match value {
        Scalar::Number(number) => text::read_signed(written) == Some(number),
        Scalar::Text(text) => {
            &&& written.len() >= 2
            &&& written.first() == '"'
            &&& written.last() == '"'
            &&& grammar::read_string_body(written.subrange(1, written.len() - 1)) == Some(text)
        },
    }
}

/// The bytes are a member of an object: a quoted name, a colon and a value.
pub open spec fn reads_as_member(bytes: Seq<u8>, name: Seq<char>, value: Scalar) -> bool {
    exists|quoted: Seq<char>, written: Seq<char>|
        {
            &&& #[trigger] grammar::read_string_body(quoted) == Some(name)
            &&& #[trigger] denotes(written, value)
            &&& bytes == encode_utf8(seq!['"'] + quoted + seq!['"', ':'] + written)
        }
}

/// Some bytes in a row, with a comma between two of them.
pub open spec fn with_commas(parts: Seq<Seq<u8>>) -> Seq<u8>
    decreases parts.len(),
{
    if parts.len() == 0 {
        Seq::empty()
    } else if parts.len() == 1 {
        parts[0]
    } else {
        with_commas(parts.drop_last()) + seq![0x2Cu8] + parts.last()
    }
}

/// Each of the parts is the member at its position.
pub open spec fn are_these_members(
    parts: Seq<Seq<u8>>,
    members: Seq<(Seq<char>, Scalar)>,
) -> bool {
    &&& parts.len() == members.len()
    &&& forall|i: int|
        0 <= i < parts.len() ==> reads_as_member(#[trigger] parts[i], members[i].0, members[i].1)
}

/// The bytes are these members, separated by commas.
pub open spec fn reads_as_members(bytes: Seq<u8>, members: Seq<(Seq<char>, Scalar)>) -> bool {
    exists|parts: Seq<Seq<u8>>| #[trigger]
        are_these_members(parts, members) && bytes == with_commas(parts)
}

proof fn lemma_joined(parts: Seq<Seq<u8>>)
    ensures
        json::joined(parts) == with_commas(parts),
    decreases parts.len(),
{
    if parts.len() > 1 {
        lemma_joined(parts.drop_last());
    }
}

proof fn lemma_text_member(name: Seq<char>, value: Seq<char>)
    ensures
        reads_as_member(json::string_member(name, value), name, Scalar::Text(value)),
{
    let quoted = json::escaped(name);
    let written = json::json_string(value);
    grammar::a_json_string_reads_back_as_the_text(name);
    grammar::a_json_string_reads_back_as_the_text(value);
    assert(written.subrange(1, written.len() - 1) =~= json::escaped(value));
    assert(grammar::read_string_body(quoted) == Some(name));
    assert(denotes(written, Scalar::Text(value)));
    assert(json::json_string(name) + seq![':'] + written =~= seq!['"'] + quoted + seq!['"', ':']
        + written);
}

proof fn lemma_number_member(name: Seq<char>, value: int)
    ensures
        reads_as_member(json::number_member(name, value), name, Scalar::Number(value)),
{
    let quoted = json::escaped(name);
    let written = text::signed_decimal(value);
    grammar::a_json_string_reads_back_as_the_text(name);
    text::a_signed_decimal_reads_back_as_the_number(value);
    assert(grammar::read_string_body(quoted) == Some(name));
    assert(denotes(written, Scalar::Number(value)));
    assert(json::json_string(name) + seq![':'] + written =~= seq!['"'] + quoted + seq!['"', ':']
        + written);
}

proof fn lemma_one_more_member(
    parts: Seq<Seq<u8>>,
    members: Seq<(Seq<char>, Scalar)>,
    part: Seq<u8>,
    name: Seq<char>,
    value: Scalar,
)
    requires
        are_these_members(parts, members),
        reads_as_member(part, name, value),
    ensures
        are_these_members(parts.push(part), members.push((name, value))),
{
    let all = parts.push(part);
    assert forall|i: int| 0 <= i < all.len() implies reads_as_member(
        #[trigger] all[i],
        members.push((name, value))[i].0,
        members.push((name, value))[i].1,
    ) by {
        if i < parts.len() {
            assert(reads_as_member(parts[i], members[i].0, members[i].1));
        }
    }
}

/// The members injected for the declared columns, read one by one.
#[verifier::rlimit(60)]
proof fn lemma_metadata_members(columns: MetadataView, event: EventView) -> (members: Seq<
    (Seq<char>, Scalar),
>)
    ensures
        are_these_members(json::metadata_members(columns, event), members),
        ({
            let topics: int = if columns.topic is Some {
                1
            } else {
                0
            };
            let partitions: int = topics + if columns.partition is Some {
                1int
            } else {
                0
            };
            let offsets: int = partitions + if columns.offset is Some {
                1int
            } else {
                0
            };
            let timestamps: int = offsets + if columns.timestamp is Some {
                1int
            } else {
                0
            };
            let keys: int = timestamps + if columns.key is Some {
                1int
            } else {
                0
            };
            &&& members.len() == keys
            &&& columns.topic matches Some(name) ==> members[0] == (name, Scalar::Text(event.topic))
            &&& columns.partition matches Some(name) ==> members[topics] == (
                name,
                Scalar::Number(event.partition as int),
            )
            &&& columns.offset matches Some(name) ==> members[partitions] == (
                name,
                Scalar::Number(event.offset as int),
            )
            &&& columns.timestamp matches Some(name) ==> members[offsets].0 == name && (
            event.timestamp_ms matches Some(timestamp) ==> members[offsets].1 == Scalar::Number(
                timestamp as int,
            )) && (event.timestamp_ms is None ==> members[offsets].1 == Scalar::Number(0))
            &&& columns.key matches Some(name) ==> members[timestamps].0 == name && (
            event.key matches Some(key) ==> (valid_utf8(key) ==> members[timestamps].1
                == Scalar::Text(decode_utf8(key))) && (!valid_utf8(key) ==> members[timestamps].1
                == Scalar::Text(json::lossy_text(key)))) && (event.key is None
                ==> members[timestamps].1 == Scalar::Text(Seq::<char>::empty()))
        }),
{
    let no_parts = Seq::<Seq<u8>>::empty();
    let no_members = Seq::<(Seq<char>, Scalar)>::empty();
    let (a, with_topic) = lemma_text_column(no_parts, no_members, columns.topic, event.topic);
    let (b, with_partition) = lemma_number_column(
        a,
        with_topic,
        columns.partition,
        event.partition as int,
    );
    let (c, with_offset) = lemma_number_column(
        b,
        with_partition,
        columns.offset,
        event.offset as int,
    );
    let timestamp = json::timestamp_or_zero(event);
    let (d, with_timestamp) = lemma_number_column(c, with_offset, columns.timestamp, timestamp);
    let key = json::readable_text(event.key_bytes());
    let (e, members) = lemma_text_column(d, with_timestamp, columns.key, key);
    if event.key is None {
        let none = Seq::<char>::empty();
        assert(event.key_bytes() =~= encode_utf8(none)) by {
            assert(encode_utf8(none) =~= Seq::<u8>::empty());
        }
        encode_utf8_valid_utf8(none);
        encode_utf8_decode_utf8(none);
    }
    assert(e == json::metadata_members(columns, event));
    members
}

/// A row says of its event what the declared columns ask for, to any reader of
/// JSON. After the opening brace come the members returned, one per declared
/// column and in the order topic, partition, offset, timestamp and key: the texts
/// read back as topic and key, the numbers as partition, offset and timestamp, zero
/// where there is none. The payload's own members follow.
pub proof fn a_row_holds_the_coordinates_of_its_event(
    columns: MetadataView,
    event: EventView,
    body: Seq<u8>,
) -> (read: (Seq<u8>, Seq<(Seq<char>, Scalar)>))
    requires
        columns.topic is Some || columns.partition is Some || columns.offset is Some
            || columns.timestamp is Some || columns.key is Some,
    ensures
        body.len() == 0 ==> json::json_row(columns, event, body) == seq![0x7Bu8] + read.0
            + seq![0x7Du8, 0x0Au8],
        body.len() > 0 ==> json::json_row(columns, event, body) == seq![0x7Bu8] + read.0
            + seq![0x2Cu8] + body + seq![0x7Du8, 0x0Au8],
        reads_as_members(read.0, read.1),
        ({
            let members = read.1;
            let topics: int = if columns.topic is Some {
                1
            } else {
                0
            };
            let partitions: int = topics + if columns.partition is Some {
                1int
            } else {
                0
            };
            let offsets: int = partitions + if columns.offset is Some {
                1int
            } else {
                0
            };
            let timestamps: int = offsets + if columns.timestamp is Some {
                1int
            } else {
                0
            };
            let keys: int = timestamps + if columns.key is Some {
                1int
            } else {
                0
            };
            &&& members.len() == keys
            &&& columns.topic matches Some(name) ==> members[0] == (name, Scalar::Text(event.topic))
            &&& columns.partition matches Some(name) ==> members[topics] == (
                name,
                Scalar::Number(event.partition as int),
            )
            &&& columns.offset matches Some(name) ==> members[partitions] == (
                name,
                Scalar::Number(event.offset as int),
            )
            &&& columns.timestamp matches Some(name) ==> members[offsets].0 == name && (
            event.timestamp_ms matches Some(timestamp) ==> members[offsets].1 == Scalar::Number(
                timestamp as int,
            )) && (event.timestamp_ms is None ==> members[offsets].1 == Scalar::Number(0))
            &&& columns.key matches Some(name) ==> members[timestamps].0 == name && (
            event.key matches Some(key) ==> (valid_utf8(key) ==> members[timestamps].1
                == Scalar::Text(decode_utf8(key))) && (!valid_utf8(key) ==> members[timestamps].1
                == Scalar::Text(json::lossy_text(key)))) && (event.key is None
                ==> members[timestamps].1 == Scalar::Text(Seq::<char>::empty()))
        }),
{
    let parts = json::metadata_members(columns, event);
    let members = lemma_metadata_members(columns, event);
    assert(parts.len() > 0);
    let row = json::json_row(columns, event, body);
    if body.len() > 0 {
        json::parts_are_separated_by_commas(parts, body);
        assert(row =~= seq![0x7Bu8] + json::joined(parts) + seq![0x2Cu8] + body + seq![
            0x7Du8,
            0x0Au8,
        ]);
    } else {
        assert(row =~= seq![0x7Bu8] + json::joined(parts) + seq![0x7Du8, 0x0Au8]);
    }
    lemma_joined(parts);
    assert(are_these_members(parts, members));
    (json::joined(parts), members)
}

proof fn lemma_text_column(
    parts: Seq<Seq<u8>>,
    members: Seq<(Seq<char>, Scalar)>,
    column: Option<Seq<char>>,
    value: Seq<char>,
) -> (now: (Seq<Seq<u8>>, Seq<(Seq<char>, Scalar)>))
    requires
        are_these_members(parts, members),
    ensures
        are_these_members(now.0, now.1),
        now.0 == json::with_part(
            parts,
            match column {
                Some(name) => Some(json::string_member(name, value)),
                None => None,
            },
        ),
        column matches Some(name) ==> now.1 == members.push((name, Scalar::Text(value))),
        column is None ==> now.1 == members,
{
    match column {
        Some(name) => {
            let part = json::string_member(name, value);
            lemma_text_member(name, value);
            lemma_one_more_member(parts, members, part, name, Scalar::Text(value));
            (parts.push(part), members.push((name, Scalar::Text(value))))
        },
        None => (parts, members),
    }
}

proof fn lemma_number_column(
    parts: Seq<Seq<u8>>,
    members: Seq<(Seq<char>, Scalar)>,
    column: Option<Seq<char>>,
    value: int,
) -> (now: (Seq<Seq<u8>>, Seq<(Seq<char>, Scalar)>))
    requires
        are_these_members(parts, members),
    ensures
        are_these_members(now.0, now.1),
        now.0 == json::with_part(
            parts,
            match column {
                Some(name) => Some(json::number_member(name, value)),
                None => None,
            },
        ),
        column matches Some(name) ==> now.1 == members.push((name, Scalar::Number(value))),
        column is None ==> now.1 == members,
{
    match column {
        Some(name) => {
            let part = json::number_member(name, value);
            lemma_number_member(name, value);
            lemma_one_more_member(parts, members, part, name, Scalar::Number(value));
            (parts.push(part), members.push((name, Scalar::Number(value))))
        },
        None => (parts, members),
    }
}

/// The view of the columns shows each of their names.
pub proof fn a_view_shows_every_column(columns: MetadataColumns)
    ensures
        columns.topic is None <==> columns@.topic is None,
        columns.topic matches Some(name) ==> columns@.topic == Some(name@),
        columns.partition is None <==> columns@.partition is None,
        columns.partition matches Some(name) ==> columns@.partition == Some(name@),
        columns.offset is None <==> columns@.offset is None,
        columns.offset matches Some(name) ==> columns@.offset == Some(name@),
        columns.timestamp is None <==> columns@.timestamp is None,
        columns.timestamp matches Some(name) ==> columns@.timestamp == Some(name@),
        columns.key is None <==> columns@.key is None,
        columns.key matches Some(name) ==> columns@.key == Some(name@),
        columns@.is_empty() <==> columns.topic is None && columns.partition is None
            && columns.offset is None && columns.timestamp is None && columns.key is None,
{
}

/// Nothing but ASCII whitespace: space, tab, line feed, form feed and carriage
/// return.
pub open spec fn blank(bytes: Seq<u8>) -> bool {
    forall|i: int|
        0 <= i < bytes.len() ==> #[trigger] bytes[i] == 0x20 || bytes[i] == 0x09 || bytes[i] == 0x0A
            || bytes[i] == 0x0C || bytes[i] == 0x0D
}

/// Neither end is ASCII whitespace.
pub open spec fn has_no_blank_end(bytes: Seq<u8>) -> bool {
    bytes.len() > 0 ==> !blank(seq![bytes.first()]) && !blank(seq![bytes.last()])
}

/// Trimming takes whitespace away from both ends, all of it, and nothing else.
pub proof fn trimming_takes_only_whitespace_away(bytes: Seq<u8>) -> (ends: (Seq<u8>, Seq<u8>))
    ensures
        bytes == ends.0 + json::trimmed(bytes) + ends.1,
        blank(ends.0),
        blank(ends.1),
        has_no_blank_end(json::trimmed(bytes)),
    decreases bytes.len(),
{
    let none = Seq::<u8>::empty();
    if bytes.len() == 0 {
        assert(bytes =~= none + bytes + none);
        (none, none)
    } else if json::is_space(bytes.first()) {
        let rest = bytes.drop_first();
        let (front, back) = trimming_takes_only_whitespace_away(rest);
        let longer = seq![bytes.first()] + front;
        assert(bytes =~= seq![bytes.first()] + rest);
        assert(bytes =~= longer + json::trimmed(bytes) + back);
        assert(blank(longer));
        (longer, back)
    } else if json::is_space(bytes.last()) {
        let rest = bytes.drop_last();
        let (front, back) = trimming_takes_only_whitespace_away(rest);
        let longer = back + seq![bytes.last()];
        assert(bytes =~= rest + seq![bytes.last()]);
        assert(bytes =~= front + json::trimmed(bytes) + longer);
        assert(blank(longer));
        (front, longer)
    } else {
        assert(bytes =~= none + bytes + none);
        assert(seq![bytes.first()][0] == bytes.first());
        assert(seq![bytes.last()][0] == bytes.last());
        (none, none)
    }
}

/// A payload is taken for an object exactly where its first and last byte that are
/// not whitespace are braces; its body is what lies between them, without the
/// whitespace at its ends. A payload of nothing but whitespace is empty.
pub proof fn a_payload_is_taken_apart_at_its_braces(payload: Seq<u8>) -> (ends: (
    Seq<u8>,
    Seq<u8>,
    Seq<u8>,
    Seq<u8>,
))
    ensures
        json::payload_body(payload) == Err::<Seq<u8>, Rejection>(Rejection::Empty) <==> blank(
            payload,
        ),
        json::payload_body(payload) matches Ok(body) ==> {
            &&& payload == ends.0 + seq![0x7Bu8] + ends.1 + body + ends.2 + seq![0x7Du8] + ends.3
            &&& blank(ends.0) && blank(ends.1) && blank(ends.2) && blank(ends.3)
            &&& has_no_blank_end(body)
        },
        json::payload_body(payload) == Err::<Seq<u8>, Rejection>(Rejection::NotAnObject) ==> {
            &&& payload == ends.0 + ends.1 + ends.3
            &&& blank(ends.0) && blank(ends.3)
            &&& ends.1.len() > 0 && has_no_blank_end(ends.1)
            &&& ends.1.first() != 0x7B || ends.1.last() != 0x7D
        },
{
    let bare = json::trimmed(payload);
    let (front, back) = trimming_takes_only_whitespace_away(payload);
    if bare.len() == 0 {
        assert forall|i: int| 0 <= i < payload.len() implies #[trigger] payload[i] == 0x20
            || payload[i] == 0x09 || payload[i] == 0x0A || payload[i] == 0x0C || payload[i]
            == 0x0D by {
            if i < front.len() {
                assert(front[i] == payload[i]);
            } else {
                assert(back[i - front.len()] == payload[i]);
            }
        }
        (front, bare, bare, back)
    } else {
        assert(!blank(payload)) by {
            let at = front.len() as int;
            assert(payload[at] == bare[0]);
            if blank(payload) {
                assert(blank(seq![bare.first()]));
            }
        }
        if bare.first() == 0x7B && bare.last() == 0x7D {
            let inner = bare.subrange(1, bare.len() - 1);
            let (opening, closing) = trimming_takes_only_whitespace_away(inner);
            assert(bare =~= seq![0x7Bu8] + inner + seq![0x7Du8]);
            assert(payload =~= front + seq![0x7Bu8] + opening + json::trimmed(inner) + closing
                + seq![0x7Du8] + back);
            (front, opening, closing, back)
        } else {
            (front, bare, bare, back)
        }
    }
}

} // verus!
