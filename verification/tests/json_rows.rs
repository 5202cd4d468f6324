//! `JSONEachRow` lines.

use std::sync::Arc;

use bytes::Bytes;
use rustper::event::{Event, SourceMetadata};
use rustper::sink::clickhouse::json::{
    itoa, object_body, trim_ascii, write_json_string, write_json_text, write_row, MetadataColumns, Rejection,
};

fn event(payload: &str) -> Event {
    Event {
        key: Some(Bytes::from_static(b"k1")),
        payload: Bytes::copy_from_slice(payload.as_bytes()),
        timestamp_ms: Some(1_700_000_000_123),
        source: SourceMetadata {
            component_id: Arc::from("src"),
            topic: Arc::from("orders"),
            partition: 3,
            offset: 42,
        },
    }
}

fn row(payload: &str, metadata: &MetadataColumns) -> Result<String, Rejection> {
    let mut out = Vec::new();
    write_row(&mut out, &event(payload), metadata)?;
    Ok(String::from_utf8(out).expect("valid UTF-8"))
}

fn all_metadata() -> MetadataColumns {
    MetadataColumns {
        topic: Some("_topic".into()),
        partition: Some("_partition".into()),
        offset: Some("_offset".into()),
        timestamp: Some("_ts".into()),
        key: Some("_key".into()),
    }
}

/// Every emitted row must be a valid JSON object, or ClickHouse rejects the
/// entire batch rather than one row.
fn assert_valid_json(line: &str) -> serde_json::Value {
    let trimmed = line.strip_suffix('\n').expect("rows are newline terminated");
    serde_json::from_str(trimmed).unwrap_or_else(|e| panic!("invalid JSON {trimmed:?}: {e}"))
}

#[test]
fn without_metadata_the_payload_passes_through() {
    let line = row(r#"{"a":1,"b":"x"}"#, &MetadataColumns::default()).unwrap();
    assert_eq!(line, "{\"a\":1,\"b\":\"x\"}\n");
    assert_valid_json(&line);
}

#[test]
fn metadata_is_spliced_in_front_of_the_payload() {
    let line = row(r#"{"a":1}"#, &all_metadata()).unwrap();
    let parsed = assert_valid_json(&line);
    assert_eq!(parsed["_topic"], "orders");
    assert_eq!(parsed["_partition"], 3);
    assert_eq!(parsed["_offset"], 42);
    assert_eq!(parsed["_ts"], 1_700_000_000_123_i64);
    assert_eq!(parsed["_key"], "k1");
    assert_eq!(parsed["a"], 1, "the payload survives alongside the metadata");
}

#[test]
fn an_empty_payload_object_does_not_produce_a_trailing_comma() {
    // The naive splice would emit {"_topic":"orders",} which is invalid.
    let line = row("{}", &all_metadata()).unwrap();
    let parsed = assert_valid_json(&line);
    assert_eq!(parsed["_topic"], "orders");
    assert_eq!(parsed.as_object().unwrap().len(), 5);

    let bare = row("{}", &MetadataColumns::default()).unwrap();
    assert_eq!(bare, "{}\n");
}

#[test]
fn whitespace_around_the_payload_is_tolerated() {
    let line = row("  \n {\"a\": 1}\t ", &all_metadata()).unwrap();
    assert_eq!(assert_valid_json(&line)["a"], 1);

    let empty_with_space = row("{   }", &all_metadata()).unwrap();
    assert_valid_json(&empty_with_space);
}

#[test]
fn only_one_metadata_column_still_produces_valid_json() {
    let metadata = MetadataColumns { offset: Some("_offset".into()), ..MetadataColumns::default() };
    let parsed = assert_valid_json(&row(r#"{"a":1}"#, &metadata).unwrap());
    assert_eq!(parsed["_offset"], 42);
    assert_eq!(parsed.as_object().unwrap().len(), 2);
}

#[test]
fn non_objects_are_rejected_rather_than_corrupting_the_batch() {
    assert_eq!(row("", &all_metadata()), Err(Rejection::Empty));
    assert_eq!(row("   \n ", &all_metadata()), Err(Rejection::Empty));
    assert_eq!(row("not json", &all_metadata()), Err(Rejection::NotAnObject));
    assert_eq!(row("[1,2,3]", &all_metadata()), Err(Rejection::NotAnObject));
    assert_eq!(row("\"a string\"", &all_metadata()), Err(Rejection::NotAnObject));
    assert_eq!(row("{\"a\":1", &all_metadata()), Err(Rejection::NotAnObject));
}

#[test]
fn column_names_and_keys_are_escaped() {
    let metadata = MetadataColumns {
        topic: Some("odd\"name".into()),
        key: Some("_key".into()),
        ..MetadataColumns::default()
    };
    let mut event = event(r#"{"a":1}"#);
    event.key = Some(Bytes::from_static(b"line\nbreak\"quote\\slash"));
    let mut out = Vec::new();
    write_row(&mut out, &event, &metadata).unwrap();
    let line = String::from_utf8(out).unwrap();
    let parsed = assert_valid_json(&line);
    assert_eq!(parsed["odd\"name"], "orders");
    assert_eq!(parsed["_key"], "line\nbreak\"quote\\slash");
}

#[test]
fn invalid_utf8_in_a_key_does_not_produce_invalid_json() {
    // A Kafka key is arbitrary bytes. Emitting them raw would break the whole
    // batch, so they are replaced instead.
    let metadata = MetadataColumns { key: Some("_key".into()), ..MetadataColumns::default() };
    let mut event = event(r#"{"a":1}"#);
    event.key = Some(Bytes::from_static(&[0xff, 0xfe, b'o', b'k']));
    let mut out = Vec::new();
    write_row(&mut out, &event, &metadata).unwrap();
    assert_valid_json(&String::from_utf8(out).unwrap());
}

#[test]
fn control_characters_in_a_key_are_escaped() {
    let metadata = MetadataColumns { key: Some("_key".into()), ..MetadataColumns::default() };
    let mut event = event(r#"{"a":1}"#);
    event.key = Some(Bytes::from_static(&[0x01, b'a']));
    let mut out = Vec::new();
    write_row(&mut out, &event, &metadata).unwrap();
    let line = String::from_utf8(out).unwrap();
    assert!(line.contains("\\u0001"), "{line}");
    assert_valid_json(&line);
}

#[test]
fn a_missing_timestamp_becomes_zero_rather_than_null() {
    let metadata = MetadataColumns { timestamp: Some("_ts".into()), ..MetadataColumns::default() };
    let mut event = event(r#"{"a":1}"#);
    event.timestamp_ms = None;
    let mut out = Vec::new();
    write_row(&mut out, &event, &metadata).unwrap();
    assert_eq!(assert_valid_json(&String::from_utf8(out).unwrap())["_ts"], 0);
}

#[test]
fn rows_accumulate_into_one_buffer() {
    let mut out = Vec::new();
    write_row(&mut out, &event(r#"{"a":1}"#), &MetadataColumns::default()).unwrap();
    write_row(&mut out, &event(r#"{"a":2}"#), &MetadataColumns::default()).unwrap();
    let text = String::from_utf8(out).unwrap();
    assert_eq!(text.lines().count(), 2);
    for line in text.lines() {
        serde_json::from_str::<serde_json::Value>(line).expect("each line stands alone");
    }
}

#[test]
fn the_whole_row_is_laid_out_in_column_order() {
    let line = row(r#"{"a":1}"#, &all_metadata()).unwrap();
    assert_eq!(
        line,
        "{\"_topic\":\"orders\",\"_partition\":3,\"_offset\":42,\"_ts\":1700000000123,\
         \"_key\":\"k1\",\"a\":1}\n"
    );
    assert!(!all_metadata().is_empty());
    assert!(MetadataColumns::default().is_empty());
}

#[test]
fn every_character_survives_being_written_as_a_string() {
    let mut text: String = (0..0x80_u8).map(char::from).collect();
    text.push_str("ü\u{7ff}\u{800}\u{ffff}\u{1f600}");
    let mut out = Vec::new();
    write_json_string(&mut out, text.as_bytes());
    let read: String = serde_json::from_slice(&out).unwrap();
    assert_eq!(read, text);
}

#[test]
fn broken_bytes_are_replaced_and_the_rest_is_kept() {
    let mut out = Vec::new();
    write_json_string(&mut out, &[b'a', 0xff, b'b']);
    let read: String = serde_json::from_slice(&out).unwrap();
    assert_eq!(read, "a\u{fffd}b");
}

#[test]
fn a_rejected_row_leaves_the_buffer_as_it_was() {
    let mut out = b"kept".to_vec();
    assert_eq!(
        write_row(&mut out, &event("[]"), &all_metadata()),
        Err(Rejection::NotAnObject)
    );
    assert_eq!(out, b"kept");
    assert_eq!(Rejection::Empty.as_str(), "payload is empty");
    assert_eq!(Rejection::NotAnObject.as_str(), "payload is not a JSON object");
}

#[test]
fn only_the_ends_of_a_payload_are_looked_at() {
    assert_eq!(object_body(b" { x } "), Ok(&b"x"[..]));
    assert_eq!(object_body(b"{"), Err(Rejection::NotAnObject));
    assert_eq!(trim_ascii(b"\x0c\t a b \r\n"), b"a b");
    assert!(trim_ascii(b" \t ").is_empty());
}

#[test]
fn numbers_are_written_in_plain_decimal() {
    assert_eq!(itoa(0), "0");
    assert_eq!(itoa(-7), "-7");
    assert_eq!(itoa(i64::MIN), i64::MIN.to_string());
    assert_eq!(itoa(i64::MAX), i64::MAX.to_string());
}

#[test]
fn without_metadata_whitespace_in_and_around_the_payload_is_kept() {
    let none = MetadataColumns::default();
    assert_eq!(row(r#"{ "a": 1 }"#, &none).unwrap(), "{ \"a\": 1 }\n");
    assert_eq!(row(" \t{ \"a\" : 1 }\r\n", &none).unwrap(), " \t{ \"a\" : 1 }\r\n\n");
    assert_eq!(row(" {} ", &none).unwrap(), " {} \n");
    assert_valid_json(&row(" {} ", &none).unwrap());
    assert_eq!(row("{  }", &none).unwrap(), "{  }\n");
    assert_eq!(row("{}", &none).unwrap(), "{}\n");
    let key = MetadataColumns { key: Some("_key".into()), ..none };
    assert_eq!(row(r#"{ "a": 1 }"#, &key).unwrap(), "{\"_key\":\"k1\",\"a\": 1}\n");
}

#[test]
fn text_is_written_as_a_string_literal() {
    let mut out = b"x".to_vec();
    write_json_text(&mut out, "a\"\u{1}\u{e9}");
    assert_eq!(String::from_utf8(out).unwrap(), "x\"a\\\"\\u0001\u{e9}\"");
}
