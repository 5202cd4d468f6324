//! Events, batches and the arena.

use std::sync::Arc;

use rustper::event::{BatchBuffer, Event, EventBatch, SourceMetadata};

fn event(payload: &[u8]) -> Event {
    Event {
        key: None,
        payload: bytes::Bytes::copy_from_slice(payload),
        timestamp_ms: None,
        source: SourceMetadata {
            component_id: Arc::from("source"),
            topic: Arc::from("topic"),
            partition: 0,
            offset: 0,
        },
    }
}

#[test]
fn arena_views_keep_their_own_contents() {
    let mut buffer = BatchBuffer::with_chunk(16);
    let views: Vec<_> = (0..8u8).map(|i| buffer.copy(&[i; 5])).collect();
    for (i, view) in views.iter().enumerate() {
        assert_eq!(view.as_ref(), &[i as u8; 5], "view {i} was corrupted");
    }
}

#[test]
fn arena_handles_values_larger_than_a_chunk() {
    let mut buffer = BatchBuffer::with_chunk(8);
    let big = vec![7_u8; 100];
    assert_eq!(buffer.copy(&big).as_ref(), big.as_slice());
    assert!(buffer.copy(&[]).is_empty());
}

#[test]
fn batch_size_counts_payload_and_struct_overhead() {
    let batch = EventBatch::new(vec![event(b"abcd"), event(b"ef")]);
    assert_eq!(batch.len(), 2);
    assert_eq!(
        batch.bytes(),
        batch.events().iter().map(Event::estimated_size).sum::<usize>()
    );
    assert!(batch.bytes() > 6, "struct overhead must be accounted for");
}

#[test]
fn a_keyed_event_costs_its_key_too() {
    let plain = event(b"abcd");
    let mut keyed = event(b"abcd");
    keyed.key = Some("key".into());
    assert_eq!(plain.estimated_size(), std::mem::size_of::<Event>() + 4);
    assert_eq!(keyed.estimated_size(), plain.estimated_size() + 3);
    assert_eq!(keyed.key_bytes(), b"key");
    assert!(plain.key_bytes().is_empty());
    let copy = keyed.clone();
    assert_eq!(copy.payload, keyed.payload);
    assert_eq!(copy.key, keyed.key);
}

#[test]
fn an_empty_batch_weighs_nothing() {
    let batch = EventBatch::new(Vec::new());
    assert!(batch.is_empty());
    assert_eq!(batch.bytes(), 0);
}

#[test]
fn a_chunk_is_never_empty() {
    let mut buffer = BatchBuffer::with_chunk(0);
    assert_eq!(buffer.copy(b"abc").as_ref(), b"abc");
    let mut default = BatchBuffer::default();
    assert_eq!(default.copy(b"xyz").as_ref(), b"xyz");
}

#[test]
fn an_empty_source_needs_no_chunk() {
    let mut buffer = BatchBuffer::with_chunk(usize::MAX);
    assert!(buffer.copy(&[]).is_empty());
}
