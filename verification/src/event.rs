//! The transport-neutral event, batches of events, and the arena that record
//! contents are copied into.

use bytes::{Bytes, BytesMut};
use std::mem::size_of;
use std::sync::Arc;
use vstd::prelude::*;

verus! {

/// The immutable byte string of the `bytes` crate.
#[verifier::external_type_specification]
#[verifier::external_body]
pub struct ExBytes(bytes::Bytes);

/// The growable byte buffer of the `bytes` crate.
#[verifier::external_type_specification]
#[verifier::external_body]
pub struct ExBytesMut(bytes::BytesMut);

/// The bytes that a [`Bytes`] views.
pub uninterp spec fn contents(value: Bytes) -> Seq<u8>;

/// The bytes written to a [`BytesMut`] and not yet split off.
pub uninterp spec fn buffered(buffer: BytesMut) -> Seq<u8>;

/// `Bytes::new`: an empty byte string.
pub assume_specification[ Bytes::new ]() -> (value: Bytes)
    ensures
        contents(value) == Seq::<u8>::empty(),
;

/// `Bytes::len`: the number of bytes viewed.
pub assume_specification[ Bytes::len ](value: &Bytes) -> (len: usize)
    ensures
        len == contents(*value).len(),
;

/// `Bytes` as a slice: exactly the bytes viewed.
pub assume_specification[ <Bytes as AsRef<[u8]>>::as_ref ](value: &Bytes) -> (bytes: &[u8])
    ensures
        bytes@ == contents(*value),
;

/// `Bytes::clone`: another view of the same bytes.
pub assume_specification[ <Bytes as Clone>::clone ](value: &Bytes) -> (copy: Bytes)
    ensures
        contents(copy) == contents(*value),
;

/// `BytesMut::new`: an empty buffer.
pub assume_specification[ BytesMut::new ]() -> (buffer: BytesMut)
    ensures
        buffered(buffer) == Seq::<u8>::empty(),
;

/// `BytesMut::with_capacity`: an empty buffer with room for `capacity` bytes.
/// A capacity beyond `isize::MAX` makes the allocation panic.
pub assume_specification[ BytesMut::with_capacity ](capacity: usize) -> (buffer: BytesMut)
    requires
        capacity <= isize::MAX,
    ensures
        buffered(buffer) == Seq::<u8>::empty(),
;

/// `BytesMut::capacity`: how many bytes fit without another allocation, which
/// is never fewer than are held. How many it is depends on the allocator.
pub assume_specification[ BytesMut::capacity ](buffer: &BytesMut) -> (capacity: usize)
    ensures
        capacity >= buffered(*buffer).len(),
;

/// `BytesMut::extend_from_slice`: appends a copy of `extend`. The combined
/// length has to stay within what one allocation can hold.
pub assume_specification[ BytesMut::extend_from_slice ](buffer: &mut BytesMut, extend: &[u8])
    requires
        buffered(*old(buffer)).len() + extend@.len() <= isize::MAX,
    ensures
        buffered(*final(buffer)) == buffered(*old(buffer)) + extend@,
;

/// `BytesMut::split_to`: the first `at` bytes are handed out, the rest stays.
/// It panics when fewer than `at` bytes are held.
pub assume_specification[ BytesMut::split_to ](buffer: &mut BytesMut, at: usize) -> (front: BytesMut)
    requires
        at <= buffered(*old(buffer)).len(),
    ensures
        buffered(front) == buffered(*old(buffer)).take(at as int),
        buffered(*final(buffer)) == buffered(*old(buffer)).skip(at as int),
;

/// `BytesMut::freeze`: the same bytes, immutable from here on.
pub assume_specification[ BytesMut::freeze ](buffer: BytesMut) -> (value: Bytes)
    ensures
        contents(value) == buffered(buffer),
;

/// `Arc::<str>::from(&str)` of std: a shared copy of `text`.
#[verifier::external_body]
pub(crate) fn shared_text(text: &str) -> (shared: Arc<str>)
    ensures
        (*shared)@ == text@,
{
    Arc::from(text)
}

#[derive(Debug)]
pub struct Event {
    pub key: Option<Bytes>,
    pub payload: Bytes,
    pub timestamp_ms: Option<i64>,
    pub source: SourceMetadata,
}

#[derive(Debug)]
pub struct SourceMetadata {
    pub component_id: Arc<str>,
    pub topic: Arc<str>,
    pub partition: i32,
    pub offset: i64,
}

impl Clone for SourceMetadata {
    fn clone(&self) -> (copy: Self)
        ensures
            copy == *self,
    {
        SourceMetadata {
            component_id: Arc::clone(&self.component_id),
            topic: Arc::clone(&self.topic),
            partition: self.partition,
            offset: self.offset,
        }
    }
}

impl Clone for Event {
    fn clone(&self) -> (copy: Self)
        ensures
            copy@ == self@,
    {
        let key: Option<Bytes> = match &self.key {
            Some(key) => Some(key.clone()),
            None => None,
        };
        Event {
            key,
            payload: self.payload.clone(),
            timestamp_ms: self.timestamp_ms,
            source: self.source.clone(),
        }
    }
}

/// What an [`Event`] says, independent of how its bytes are stored.
pub ghost struct EventView {
    pub key: Option<Seq<u8>>,
    pub payload: Seq<u8>,
    pub timestamp_ms: Option<i64>,
    pub component_id: Seq<char>,
    pub topic: Seq<char>,
    pub partition: i32,
    pub offset: i64,
}

impl EventView {
    /// The bytes of the key, none for an event without a key.
    pub open spec fn key_bytes(self) -> Seq<u8> {
        match self.key {
            Some(key) => key,
            None => Seq::empty(),
        }
    }

    /// Struct footprint plus key and payload.
    pub open spec fn size(self) -> nat {
        vstd::layout::size_of::<Event>() + self.key_bytes().len() + self.payload.len()
    }
}

impl View for Event {
    type V = EventView;

    open spec fn view(&self) -> EventView {
        EventView {
            key: match self.key {
                Some(key) => Some(contents(key)),
                None => None,
            },
            payload: contents(self.payload),
            timestamp_ms: self.timestamp_ms,
            component_id: (*self.source.component_id)@,
            topic: (*self.source.topic)@,
            partition: self.source.partition,
            offset: self.source.offset,
        }
    }
}

/// A view shows every field of its event, whole and unchanged.
pub proof fn a_view_shows_every_field(event: Event)
    ensures
        event.key is None <==> event@.key is None,
        event.key matches Some(key) ==> event@.key == Some(contents(key)),
        event@.payload == contents(event.payload),
        event@.timestamp_ms == event.timestamp_ms,
        event@.component_id == (*event.source.component_id)@,
        event@.topic == (*event.source.topic)@,
        event@.partition == event.source.partition,
        event@.offset == event.source.offset,
        event@.key is None ==> event@.key_bytes().len() == 0,
        event@.key matches Some(key) ==> event@.key_bytes() == key,
{
}

/// The views of a sequence of events.
pub open spec fn event_views(events: Seq<Event>) -> Seq<EventView> {
    events.map_values(|event: Event| event@)
}

/// There is a view for each event, in the same order.
pub proof fn every_event_has_its_view(events: Seq<Event>, i: int)
    requires
        0 <= i < events.len(),
    ensures
        event_views(events).len() == events.len(),
        event_views(events)[i] == events[i]@,
{
}

/// The summed footprint of a sequence of events.
pub open spec fn total_size(events: Seq<EventView>) -> nat
    decreases events.len(),
{
    if events.len() == 0 {
        0
    } else {
        total_size(events.drop_last()) + events.last().size()
    }
}

/// The summed payloads of a sequence of events, keys and structs apart.
pub open spec fn payload_bytes(events: Seq<EventView>) -> nat
    decreases events.len(),
{
    if events.len() == 0 {
        0
    } else {
        payload_bytes(events.drop_last()) + events.last().payload.len()
    }
}

/// The payloads are part of the footprint.
pub proof fn lemma_payload_bytes_bound(events: Seq<EventView>)
    ensures
        payload_bytes(events) <= total_size(events),
    decreases events.len(),
{
    if events.len() > 0 {
        lemma_payload_bytes_bound(events.drop_last());
    }
}

/// The summed keys of a sequence of events.
pub open spec fn key_bytes(events: Seq<EventView>) -> nat
    decreases events.len(),
{
    if events.len() == 0 {
        0
    } else {
        key_bytes(events.drop_last()) + events.last().key_bytes().len()
    }
}

/// The footprint of a batch is that of its structs, keys and payloads; where a
/// struct takes any space at all, it exceeds the payloads.
pub proof fn the_footprint_counts_structs_keys_and_payloads(events: Seq<EventView>)
    ensures
        total_size(events) == events.len() * vstd::layout::size_of::<Event>() + key_bytes(events)
            + payload_bytes(events),
        events.len() > 0 && vstd::layout::size_of::<Event>() > 0 ==> total_size(events)
            > payload_bytes(events),
    decreases events.len(),
{
    let struct_size = vstd::layout::size_of::<Event>();
    let n = events.len();
    if n > 0 {
        the_footprint_counts_structs_keys_and_payloads(events.drop_last());
        assert(n * struct_size == (n - 1) * struct_size + struct_size) by (nonlinear_arith)
            requires
                n > 0,
        ;
        assert((n - 1) * struct_size >= 0) by (nonlinear_arith)
            requires
                n > 0,
        ;
    } else {
        assert(n * struct_size == 0) by (nonlinear_arith)
            requires
                n == 0,
        ;
    }
}

/// The payloads of two runs of events add up.
pub proof fn lemma_payload_bytes_concat(left: Seq<EventView>, right: Seq<EventView>)
    ensures
        payload_bytes(left + right) == payload_bytes(left) + payload_bytes(right),
    decreases right.len(),
{
    if right.len() == 0 {
        assert(left + right =~= left);
    } else {
        assert((left + right).drop_last() =~= left + right.drop_last());
        lemma_payload_bytes_concat(left, right.drop_last());
    }
}

/// The footprints of two runs of events add up.
pub proof fn lemma_total_size_concat(left: Seq<EventView>, right: Seq<EventView>)
    ensures
        total_size(left + right) == total_size(left) + total_size(right),
    decreases right.len(),
{
    if right.len() == 0 {
        assert(left + right =~= left);
    } else {
        assert((left + right).drop_last() =~= left + right.drop_last());
        lemma_total_size_concat(left, right.drop_last());
    }
}

/// Sizes add up over any split of a sequence, and that of a single event is its
/// struct, key and payload.
pub proof fn sizes_add_up(left: Seq<EventView>, right: Seq<EventView>, event: EventView)
    ensures
        total_size(left + right) == total_size(left) + total_size(right),
        payload_bytes(left + right) == payload_bytes(left) + payload_bytes(right),
        key_bytes(left + right) == key_bytes(left) + key_bytes(right),
        payload_bytes(seq![event]) == event.payload.len(),
        event.key matches Some(key) ==> key_bytes(seq![event]) == key.len(),
        event.key is None ==> key_bytes(seq![event]) == 0,
        event.key matches Some(key) ==> total_size(seq![event]) == vstd::layout::size_of::<Event>()
            + key.len() + event.payload.len(),
        event.key is None ==> total_size(seq![event]) == vstd::layout::size_of::<Event>()
            + event.payload.len(),
        total_size(Seq::empty()) == 0,
        payload_bytes(Seq::empty()) == 0,
    decreases right.len(),
{
    let one = seq![event];
    assert(one.drop_last() =~= Seq::<EventView>::empty());
    assert(total_size(one) == total_size(one.drop_last()) + event.size());
    assert(payload_bytes(one) == payload_bytes(one.drop_last()) + event.payload.len());
    assert(key_bytes(one) == key_bytes(one.drop_last()) + event.key_bytes().len());
    if right.len() == 0 {
        assert(left + right =~= left);
    } else {
        assert((left + right).drop_last() =~= left + right.drop_last());
        sizes_add_up(left, right.drop_last(), event);
    }
}

/// The footprint of a prefix never exceeds that of the whole.
pub proof fn lemma_total_size_prefix(events: Seq<EventView>, count: int)
    requires
        0 <= count <= events.len(),
    ensures
        total_size(events.take(count)) <= total_size(events),
    decreases events.len(),
{
    if count == events.len() {
        assert(events.take(count) =~= events);
    } else {
        assert(events.drop_last().take(count) =~= events.take(count));
        lemma_total_size_prefix(events.drop_last(), count);
    }
}

impl Event {
    /// Approximate heap + struct footprint of this event.
    ///
    /// The struct itself is counted because `max_in_flight_bytes` and the sink
    /// `batch_max_bytes` budgets are memory ceilings, not payload counters: for
    /// small messages the `Bytes`/`Arc<str>` headers dominate the payload.
    pub fn estimated_size(&self) -> (size: usize)
        requires
            self@.size() <= usize::MAX,
        ensures
            size == self@.size(),
            self.key matches Some(key) ==> size == vstd::layout::size_of::<Event>() + contents(
                key,
            ).len() + contents(self.payload).len(),
            self.key is None ==> size == vstd::layout::size_of::<Event>() + contents(
                self.payload,
            ).len(),
    {
        let key_len: usize = match &self.key {
            Some(key) => key.len(),
            None => 0,
        };
        size_of::<Event>() + key_len + self.payload.len()
    }

    /// The key's bytes, empty for an event without a key.
    pub fn key_bytes(&self) -> (bytes: &[u8])
        ensures
            bytes@ == self@.key_bytes(),
    {
        match &self.key {
            Some(key) => key.as_ref(),
            None => empty_bytes(),
        }
    }
}

fn empty_bytes() -> (bytes: &'static [u8])
    ensures
        bytes@ == Seq::<u8>::empty(),
{
    let none: &'static [u8] = &[];
    assert(none@ =~= Seq::<u8>::empty());
    none
}

/// A batch of events plus its precomputed size.
///
/// The byte count is computed once, where the batch is built, instead of being
/// recomputed by the source and again by every sink.
#[derive(Debug)]
pub struct EventBatch {
    events: Vec<Event>,
    bytes: usize,
}

impl View for EventBatch {
    type V = Seq<EventView>;

    closed spec fn view(&self) -> Seq<EventView> {
        event_views(self.events@)
    }
}

impl EventBatch {
    #[verifier::type_invariant]
    spec fn size_is_precomputed(self) -> bool {
        self.bytes == total_size(event_views(self.events@))
    }

    pub fn new(events: Vec<Event>) -> (batch: Self)
        requires
            total_size(event_views(events@)) <= usize::MAX,
        ensures
            batch@ == event_views(events@),
    {
        let mut bytes: usize = 0;
        let mut i: usize = 0;
        let ghost views = event_views(events@);
        while i < events.len()
            invariant
                views == event_views(events@),
                total_size(views) <= usize::MAX,
                i <= events.len(),
                bytes == total_size(views.take(i as int)),
            decreases events.len() - i,
        {
            proof {
                assert(views.take(i + 1).drop_last() =~= views.take(i as int));
                assert(views.take(i + 1).last() == events@[i as int]@);
                lemma_total_size_prefix(views, i + 1);
            }
            bytes += events[i].estimated_size();
            i += 1;
        }
        assert(views.take(i as int) =~= views);
        Self { events, bytes }
    }

    pub fn events(&self) -> (events: &[Event])
        ensures
            event_views(events@) == self@,
    {
        self.events.as_slice()
    }

    pub fn len(&self) -> (len: usize)
        ensures
            len == self@.len(),
    {
        self.events.len()
    }

    pub fn is_empty(&self) -> (empty: bool)
        ensures
            empty == (self@.len() == 0),
    {
        self.events.is_empty()
    }

    pub fn bytes(&self) -> (bytes: usize)
        ensures
            bytes == total_size(self@),
    {
        proof {
            use_type_invariant(self);
        }
        self.bytes
    }

    /// The bytes of the payloads alone.
    pub fn payload_bytes(&self) -> (bytes: usize)
        ensures
            bytes == payload_bytes(self@),
    {
        proof {
            use_type_invariant(self);
        }
        let mut bytes: usize = 0;
        let mut i: usize = 0;
        let ghost views = self@;
        while i < self.events.len()
            invariant
                views == event_views(self.events@),
                total_size(views) <= usize::MAX,
                i <= self.events.len(),
                bytes == payload_bytes(views.take(i as int)),
            decreases self.events.len() - i,
        {
            proof {
                assert(views.take(i + 1).drop_last() =~= views.take(i as int));
                assert(views.take(i + 1).last() == self.events@[i as int]@);
                lemma_payload_bytes_bound(views.take(i + 1));
                lemma_total_size_prefix(views, i + 1);
            }
            bytes += self.events[i].payload.len();
            i += 1;
        }
        assert(views.take(i as int) =~= views);
        bytes
    }
}

/// The events of some batches, in order.
pub open spec fn all_events(batches: Seq<Arc<EventBatch>>) -> Seq<EventView>
    decreases batches.len(),
{
    if batches.len() == 0 {
        Seq::empty()
    } else {
        all_events(batches.drop_last()) + (*batches.last())@
    }
}

/// The events of some batches are those of one batch after the other.
pub proof fn batches_are_joined_in_order(
    left: Seq<Arc<EventBatch>>,
    right: Seq<Arc<EventBatch>>,
    batch: Arc<EventBatch>,
)
    ensures
        all_events(Seq::empty()) == Seq::<EventView>::empty(),
        all_events(seq![batch]) == (*batch)@,
        all_events(left + right) == all_events(left) + all_events(right),
    decreases right.len(),
{
    let one = seq![batch];
    assert(one.drop_last() =~= Seq::<Arc<EventBatch>>::empty());
    assert(all_events(one.drop_last()) =~= Seq::<EventView>::empty());
    assert(all_events(one) =~= (*batch)@);
    if right.len() == 0 {
        assert(left + right =~= left);
        assert(all_events(left) + all_events(right) =~= all_events(left));
    } else {
        assert((left + right).drop_last() =~= left + right.drop_last());
        batches_are_joined_in_order(left, right.drop_last(), batch);
        assert(all_events(left + right) =~= all_events(left) + all_events(right));
    }
}

/// The events of the first batches are the first events.
pub proof fn lemma_all_events_prefix(batches: Seq<Arc<EventBatch>>, n: int, m: int)
    requires
        0 <= n <= m <= batches.len(),
    ensures
        all_events(batches.take(n)).len() <= all_events(batches.take(m)).len(),
        forall|i: int|
            0 <= i < all_events(batches.take(n)).len() ==> all_events(batches.take(n))[i]
                == all_events(batches.take(m))[i],
    decreases m - n,
{
    if n < m {
        lemma_all_events_prefix(batches, n, m - 1);
        assert(batches.take(m).drop_last() =~= batches.take(m - 1));
    }
}

/// Default arena chunk for [`BatchBuffer`].
pub const DEFAULT_CHUNK_BYTES: usize = 1048576;

/// An arena that turns per-message allocations into per-chunk allocations.
///
/// Copying a Kafka record out of librdkafka's borrowed buffer normally costs one
/// `malloc` per key and one per payload. `BatchBuffer` instead copies into a
/// chunk of `BytesMut` and hands out `Bytes` views that share it, so a batch of
/// N messages costs roughly `total_bytes / chunk` allocations instead of 2N.
///
/// Trade-off: a chunk stays resident until every `Bytes` carved from it drops.
/// That is fine here because all events in a batch are acknowledged and dropped
/// together, but it makes the type unsuitable for values with mixed lifetimes.
pub struct BatchBuffer {
    chunk: usize,
    buffer: BytesMut,
}

impl Default for BatchBuffer {
    fn default() -> (buffer: Self)
        ensures
            buffer.chunk() == DEFAULT_CHUNK_BYTES,
    {
        Self::with_chunk(DEFAULT_CHUNK_BYTES)
    }
}

impl BatchBuffer {
    /// Everything written to the arena has been handed out.
    #[verifier::type_invariant]
    spec fn drained(self) -> bool {
        buffered(self.buffer) == Seq::<u8>::empty()
    }

    /// The size of a chunk.
    pub closed spec fn chunk(self) -> usize {
        self.chunk
    }

    pub fn with_chunk(chunk: usize) -> (buffer: Self)
        ensures
            buffer.chunk() == if chunk == 0 { 1 } else { chunk },
    {
        Self { chunk: if chunk == 0 { 1 } else { chunk }, buffer: BytesMut::new() }
    }

    /// Copies `source` into the arena and returns a zero-copy view of it.
    pub fn copy(&mut self, source: &[u8]) -> (view: Bytes)
        requires
            source@.len() > 0 ==> old(self).chunk() <= isize::MAX,
            source@.len() <= isize::MAX,
        ensures
            contents(view) == source@,
            final(self).chunk() == old(self).chunk(),
    {
        proof {
            use_type_invariant(&*self);
        }
        if source.is_empty() {
            assert(source@ =~= Seq::<u8>::empty());
            return Bytes::new();
        }
        let mut buffer = BytesMut::new();
        std::mem::swap(&mut buffer, &mut self.buffer);
        // After a `split_to` the buffer is empty and `capacity` is whatever is
        // left in the current chunk, so this is a pure remaining-space check.
        if buffer.capacity() < source.len() {
            let capacity: usize = if self.chunk < source.len() { source.len() } else { self.chunk };
            buffer = BytesMut::with_capacity(capacity);
        }
        buffer.extend_from_slice(source);
        let view = buffer.split_to(source.len());
        assert(buffered(view) =~= source@);
        assert(buffered(buffer) =~= Seq::<u8>::empty());
        self.buffer = buffer;
        view.freeze()
    }
}

} // verus!
