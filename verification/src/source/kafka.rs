//! The Kafka source: records become events, and batches of events become
//! offsets to commit.

use crate::config;
use crate::config::KafkaSourceConfig;
use crate::event;
use crate::event::{shared_text, BatchBuffer, Event, EventView, SourceMetadata};
use crate::idmap::IdMap;
use crate::librdkafka;
use crate::librdkafka::{add_partition_offset, set_properties, set_property};
use crate::metrics;
use crate::metrics::{Metrics, SourceMetrics};
use crate::text;
use bytes::Bytes;
use rdkafka::error::KafkaError;
use rdkafka::topic_partition_list::TopicPartitionList;
use rdkafka::ClientConfig;
use std::sync::Arc;
use vstd::prelude::*;

verus! {

/// Interns topic names so each event holds a shared `Arc<str>` instead of its
/// own `String`.
///
/// A batch almost always comes from one topic, so the single-entry `last` slot
/// answers nearly every lookup with one comparison and skips the search for the
/// topic name once per message.
pub struct TopicCache {
    last: Option<Arc<str>>,
    interned: IdMap<Arc<str>>,
}

impl Default for TopicCache {
    fn default() -> (cache: Self)
        ensures
            cache.topics() == Set::<Seq<char>>::empty(),
    {
        let cache = TopicCache { last: None, interned: IdMap::new() };
        assert(cache.topics() =~= Set::<Seq<char>>::empty());
        cache
    }
}

impl TopicCache {
    /// The slot for the last topic holds one that is interned, and every topic
    /// is interned under its own name.
    #[verifier::type_invariant]
    spec fn named_after_their_text(self) -> bool {
        &&& forall|topic: Seq<char>|
            self.interned@.contains_key(topic) ==> (*(#[trigger] self.interned@[topic]))@ == topic
        &&& self.last matches Some(last) ==> self.interned@.contains_key((*last)@)
    }

    /// The topics interned so far.
    pub closed spec fn topics(self) -> Set<Seq<char>> {
        self.interned@.dom()
    }

    /// The shared name of `topic`, made on first use. That later calls hand out
    /// the same allocation is not part of the contract, which sees what an
    /// `Arc` points to and not where.
    pub fn intern(&mut self, topic: &str) -> (shared: Arc<str>)
        ensures
            (*shared)@ == topic@,
            final(self).topics() == old(self).topics().insert(topic@),
    {
        proof {
            use_type_invariant(&*self);
        }
        if let Some(last) = &self.last {
            if text::same_text(&**last, topic) {
                assert(self.topics() =~= old(self).topics().insert(topic@));
                return Arc::clone(last);
            }
        }
        let known: Option<Arc<str>> = match self.interned.get(topic) {
            Some(interned) => Some(Arc::clone(interned)),
            None => None,
        };
        let mut cache = TopicCache::default();
        std::mem::swap(self, &mut cache);
        let TopicCache { last: _, interned: mut interned } = cache;
        let shared: Arc<str> = match known {
            Some(shared) => shared,
            None => {
                let shared = shared_text(topic);
                interned.insert(topic.to_owned(), Arc::clone(&shared));
                shared
            },
        };
        *self = TopicCache { last: Some(Arc::clone(&shared)), interned };
        assert(self.topics() =~= old(self).topics().insert(topic@));
        shared
    }
}

/// One record as the consumer hands it out.
pub struct Record<'a> {
    pub key: Option<&'a [u8]>,
    pub payload: Option<&'a [u8]>,
    pub timestamp_ms: Option<i64>,
    pub topic: &'a str,
    pub partition: i32,
    pub offset: i64,
}

impl<'a> Record<'a> {
    /// The event that the record becomes; a record without a payload becomes an
    /// event with an empty one.
    pub open spec fn event(self, component_id: Seq<char>) -> EventView {
        EventView {
            key: match self.key {
                Some(key) => Some(key@),
                None => None,
            },
            payload: match self.payload {
                Some(payload) => payload@,
                None => Seq::empty(),
            },
            timestamp_ms: self.timestamp_ms,
            component_id,
            topic: self.topic@,
            partition: self.partition,
            offset: self.offset,
        }
    }

    /// Key and payload are slices that the machine can hold.
    pub open spec fn fits(self) -> bool {
        &&& self.key matches Some(key) ==> key@.len() <= isize::MAX
        &&& self.payload matches Some(payload) ==> payload@.len() <= isize::MAX
    }
}

/// A record and the event that it becomes say the same: key, payload, timestamp
/// and coordinates are those of the record, whole and unchanged.
pub proof fn an_event_says_what_its_record_says(record: Record<'_>, component_id: Seq<char>)
    ensures
        record.key is None <==> record.event(component_id).key is None,
        record.key matches Some(key) ==> record.event(component_id).key == Some(key@),
        record.payload matches Some(payload) ==> record.event(component_id).payload == payload@,
        record.payload is None ==> record.event(component_id).payload.len() == 0,
        record.event(component_id).timestamp_ms == record.timestamp_ms,
        record.event(component_id).component_id == component_id,
        record.event(component_id).topic == record.topic@,
        record.event(component_id).partition == record.partition,
        record.event(component_id).offset == record.offset,
{
}

/// Copies a record out of the consumer's buffer.
pub fn to_event(
    component_id: &Arc<str>,
    topics: &mut TopicCache,
    buffer: &mut BatchBuffer,
    record: &Record<'_>,
) -> (event: Event)
    requires
        old(buffer).chunk() <= isize::MAX,
        record.fits(),
    ensures
        event@ == record.event((**component_id)@),
        record.key is None <==> event.key is None,
        record.key matches Some(key) ==> event.key matches Some(copy) && event::contents(copy)
            == key@,
        record.payload matches Some(payload) ==> event::contents(event.payload) == payload@,
        record.payload is None ==> event::contents(event.payload).len() == 0,
        event.timestamp_ms == record.timestamp_ms,
        (*event.source.component_id)@ == (**component_id)@,
        (*event.source.topic)@ == record.topic@,
        event.source.partition == record.partition,
        event.source.offset == record.offset,
        final(topics).topics() == old(topics).topics().insert(record.topic@),
        final(buffer).chunk() == old(buffer).chunk(),
{
    let key: Option<Bytes> = match record.key {
        Some(key) => Some(buffer.copy(key)),
        None => None,
    };
    let payload: Bytes = match record.payload {
        Some(payload) => buffer.copy(payload),
        None => Bytes::new(),
    };
    Event {
        key,
        payload,
        timestamp_ms: record.timestamp_ms,
        source: SourceMetadata {
            component_id: Arc::clone(component_id),
            topic: topics.intern(record.topic),
            partition: record.partition,
            offset: record.offset,
        },
    }
}

/// The topic and partition that an event came from.
pub open spec fn origin(event: EventView) -> (Seq<char>, i32) {
    (event.topic, event.partition)
}

/// For every topic and partition in a batch, the offset to resume from once the
/// batch is done.
pub open spec fn next_offsets(events: Seq<EventView>) -> Map<(Seq<char>, i32), i64>
    decreases events.len(),
{
    if events.len() == 0 {
        librdkafka::no_offsets()
    } else {
        let before = next_offsets(events.drop_last());
        let key = origin(events.last());
        let next = (events.last().offset + 1) as i64;
        before.insert(
            key,
            if before.contains_key(key) && before[key] > next {
                before[key]
            } else {
                next
            },
        )
    }
}

/// An event's offset can be advanced, and its topic is one that librdkafka can
/// hold.
pub open spec fn can_be_committed(event: EventView) -> bool {
    event.offset < i64::MAX && !event.topic.contains('\0')
}

/// The resume offset of a topic and partition is one past the highest offset
/// consumed from it, in whatever order the events come; nothing else is resumed.
pub proof fn next_offset_is_one_past_the_highest(events: Seq<EventView>, key: (Seq<char>, i32))
    requires
        forall|i: int| 0 <= i < events.len() ==> #[trigger] can_be_committed(events[i]),
    ensures
        next_offsets(events).contains_key(key) <==> exists|i: int|
            0 <= i < events.len() && #[trigger] origin(events[i]) == key,
        next_offsets(events).contains_key(key) ==> exists|i: int|
            0 <= i < events.len() && #[trigger] origin(events[i]) == key && events[i].offset + 1
                == next_offsets(events)[key],
        forall|i: int|
            0 <= i < events.len() && #[trigger] origin(events[i]) == key ==> events[i].offset + 1
                <= next_offsets(events)[key],
        next_offsets(events).dom().finite(),
    decreases events.len(),
{
    if events.len() > 0 {
        let front = events.drop_last();
        let n = events.len() - 1;
        assert(can_be_committed(events[n]));
        assert forall|i: int| 0 <= i < front.len() implies #[trigger] can_be_committed(
            front[i],
        ) by {
            assert(can_be_committed(events[i]));
        }
        next_offset_is_one_past_the_highest(front, key);
        assert forall|i: int| 0 <= i < n implies #[trigger] origin(events[i]) == origin(front[i])
            by {}
        if next_offsets(front).contains_key(key) {
            let i = choose|i: int|
                0 <= i < front.len() && #[trigger] origin(front[i]) == key && front[i].offset + 1
                    == next_offsets(front)[key];
            assert(origin(events[i]) == key);
        }
        if origin(events[n]) == key {
            assert(origin(events[n]) == key);
        }
        if next_offsets(events).contains_key(key) {
            if origin(events[n]) == key && next_offsets(events)[key] == events[n].offset + 1 {
                assert(origin(events[n]) == key && events[n].offset + 1 == next_offsets(
                    events,
                )[key]);
            }
        }
        assert forall|i: int| 0 <= i < events.len() && #[trigger] origin(events[i]) == key implies
            events[i].offset + 1 <= next_offsets(events)[key] by {
            if i < n {
                assert(origin(front[i]) == key);
            }
        }
    }
}

/// A topic's partition is resumed one past the highest offset that was consumed
/// from it, whatever else the batch holds and in whatever order; a partition of
/// which nothing was consumed is not resumed at all.
pub proof fn a_partition_resumes_past_its_highest_offset(
    events: Seq<EventView>,
    topic: Seq<char>,
    partition: i32,
)
    requires
        forall|i: int| 0 <= i < events.len() ==> (#[trigger] events[i]).offset < i64::MAX,
    ensures
        next_offsets(events).contains_key((topic, partition)) <==> exists|i: int|
            0 <= i < events.len() && (#[trigger] events[i]).topic == topic && events[i].partition
                == partition,
        next_offsets(events).contains_key((topic, partition)) ==> exists|i: int|
            0 <= i < events.len() && (#[trigger] events[i]).topic == topic && events[i].partition
                == partition && next_offsets(events)[(topic, partition)] == events[i].offset + 1,
        forall|i: int|
            0 <= i < events.len() && (#[trigger] events[i]).topic == topic && events[i].partition
                == partition ==> events[i].offset < next_offsets(events)[(topic, partition)],
    decreases events.len(),
{
    if events.len() > 0 {
        let front = events.drop_last();
        let n = events.len() - 1;
        let key = (topic, partition);
        assert forall|i: int| 0 <= i < front.len() implies (#[trigger] front[i]).offset
            < i64::MAX by {
            assert(events[i].offset < i64::MAX);
        }
        a_partition_resumes_past_its_highest_offset(front, topic, partition);
        assert(events[n].offset < i64::MAX);
        if next_offsets(front).contains_key(key) {
            let i = choose|i: int|
                0 <= i < front.len() && (#[trigger] front[i]).topic == topic && front[i].partition
                    == partition && next_offsets(front)[key] == front[i].offset + 1;
            assert(events[i] == front[i]);
        }
        assert forall|i: int|
            0 <= i < events.len() && (#[trigger] events[i]).topic == topic && events[i].partition
                == partition implies events[i].offset < next_offsets(events)[key] by {
            if i < n {
                assert(front[i] == events[i]);
            }
        }
        if next_offsets(events).contains_key(key) && !(origin(events[n]) == key && next_offsets(
            events,
        )[key] == events[n].offset + 1) {
            assert(next_offsets(front).contains_key(key));
            assert(next_offsets(events)[key] == next_offsets(front)[key]);
        } else if next_offsets(events).contains_key(key) {
            assert(events[n].topic == topic && events[n].partition == partition);
        }
        if exists|i: int|
            0 <= i < events.len() && (#[trigger] events[i]).topic == topic && events[i].partition
                == partition {
            let i = choose|i: int|
                0 <= i < events.len() && (#[trigger] events[i]).topic == topic
                    && events[i].partition == partition;
            if i < n {
                assert(front[i] == events[i]);
            }
        }
    }
}

/// The offsets of a batch cannot be recorded.
#[derive(Debug)]
pub struct OffsetsRefused {
    pub cause: KafkaError,
}

impl OffsetsRefused {
    pub fn message(&self) -> (message: &'static str)
        ensures
            message@ == "cannot record next offsets for Kafka batch"@,
    {
        "cannot record next offsets for Kafka batch"
    }
}

/// `next` lists every entry of `offsets` once.
spec fn lists(next: Seq<(&str, i32, i64)>, offsets: Map<(Seq<char>, i32), i64>) -> bool {
    &&& next.len() == offsets.dom().len()
    &&& offsets.dom().finite()
    &&& forall|i: int|
        0 <= i < next.len() ==> offsets.contains_key(#[trigger] entry_key(next[i]))
            && offsets[entry_key(next[i])] == next[i].2
    &&& forall|i: int, j: int|
        0 <= i < j < next.len() ==> #[trigger] entry_key(next[i]) != #[trigger] entry_key(next[j])
    &&& forall|key: (Seq<char>, i32)| #[trigger]
        offsets.contains_key(key) ==> exists|i: int|
            0 <= i < next.len() && #[trigger] entry_key(next[i]) == key
}

spec fn entry_key(entry: (&str, i32, i64)) -> (Seq<char>, i32) {
    (entry.0@, entry.1)
}

/// The position of the entry for a topic and partition.
fn find_entry(next: &Vec<(&str, i32, i64)>, topic: &str, partition: i32) -> (found: Option<usize>)
    ensures
        match found {
            Some(i) => i < next@.len() && entry_key(next@[i as int]) == (topic@, partition),
            None => forall|i: int|
                0 <= i < next@.len() ==> #[trigger] entry_key(next@[i]) != (topic@, partition),
        },
{
    let mut i: usize = 0;
    while i < next.len()
        invariant
            i <= next@.len(),
            forall|j: int| 0 <= j < i ==> #[trigger] entry_key(next@[j]) != (topic@, partition),
        decreases next@.len() - i,
    {
        let (seen, seen_partition, _) = next[i];
        if seen_partition == partition && text::same_text(seen, topic) {
            return Some(i);
        }
        i += 1;
    }
    None
}

/// The resume offsets of a batch, in the order in which their partitions first
/// occur.
///
/// A batch spans a handful of (topic, partition) pairs at most, so a linear
/// scan beats hashing the topic name once per event.
fn collect_next_offsets(events: &[Event]) -> (next: Vec<(&str, i32, i64)>)
    requires
        forall|i: int|
            0 <= i < events@.len() ==> #[trigger] can_be_committed(event::event_views(events@)[i]),
    ensures
        lists(next@, next_offsets(event::event_views(events@))),
{
    let ghost views = event::event_views(events@);
    let mut next: Vec<(&str, i32, i64)> = Vec::new();
    let mut i: usize = 0;
    while i < events.len()
        invariant
            i <= events@.len(),
            views == event::event_views(events@),
            forall|j: int| 0 <= j < views.len() ==> #[trigger] can_be_committed(views[j]),
            lists(next@, next_offsets(views.take(i as int))),
        decreases events@.len() - i,
    {
        let event = &events[i];
        let topic: &str = &*event.source.topic;
        let partition: i32 = event.source.partition;
        assert(can_be_committed(views[i as int]));
        let offset: i64 = event.source.offset + 1;
        let ghost before = next@;
        let ghost known = next_offsets(views.take(i as int));
        let ghost now = next_offsets(views.take(i + 1));
        proof {
            assert(views.take(i + 1).drop_last() =~= views.take(i as int));
            assert(views.take(i + 1).last() == event@);
        }
        match find_entry(&next, topic, partition) {
            Some(found) => {
                let (seen, _, highest) = next[found];
                if highest <= offset {
                    next[found] = (seen, partition, offset);
                }
                proof {
                    let key = (topic@, partition);
                    assert(known.contains_key(entry_key(before[found as int])));
                    assert(now.dom() =~= known.dom());
                    assert forall|j: int| 0 <= j < next@.len() implies #[trigger] entry_key(
                        next@[j],
                    ) == entry_key(before[j]) by {}
                    assert forall|j: int| 0 <= j < next@.len() implies now.contains_key(
                        #[trigger] entry_key(next@[j]),
                    ) && now[entry_key(next@[j])] == next@[j].2 by {
                        assert(known.contains_key(entry_key(before[j])));
                        if j != found {
                            if j < found {
                                assert(entry_key(before[j]) != entry_key(before[found as int]));
                            } else {
                                assert(entry_key(before[found as int]) != entry_key(before[j]));
                            }
                        }
                    }
                    assert forall|other: (Seq<char>, i32)| #[trigger]
                        now.contains_key(other) implies exists|j: int|
                        0 <= j < next@.len() && #[trigger] entry_key(next@[j]) == other by {
                        assert(known.contains_key(other));
                        let j = choose|j: int|
                            0 <= j < before.len() && #[trigger] entry_key(before[j]) == other;
                        assert(entry_key(next@[j]) == other);
                    }
                }
            },
            None => {
                next.push((topic, partition, offset));
                proof {
                    let key = (topic@, partition);
                    let n = before.len() as int;
                    assert(entry_key(next@[n]) == key);
                    assert(!known.contains_key(key)) by {
                        if known.contains_key(key) {
                            let j = choose|j: int|
                                0 <= j < before.len() && #[trigger] entry_key(before[j]) == key;
                            assert(entry_key(before[j]) != key);
                        }
                    }
                    assert(now.dom() =~= known.dom().insert(key));
                    assert forall|j: int| 0 <= j < n implies #[trigger] entry_key(next@[j])
                        == entry_key(before[j]) by {}
                    assert forall|j: int| 0 <= j < next@.len() implies now.contains_key(
                        #[trigger] entry_key(next@[j]),
                    ) && now[entry_key(next@[j])] == next@[j].2 by {
                        if j < n {
                            assert(known.contains_key(entry_key(before[j])));
                        }
                    }
                    assert forall|a: int, b: int| 0 <= a < b < next@.len() implies #[trigger]
                        entry_key(next@[a]) != #[trigger] entry_key(next@[b]) by {
                        if b < n {
                            assert(entry_key(before[a]) != entry_key(before[b]));
                        } else {
                            assert(entry_key(before[a]) != key);
                        }
                    }
                    assert forall|other: (Seq<char>, i32)| #[trigger]
                        now.contains_key(other) implies exists|j: int|
                        0 <= j < next@.len() && #[trigger] entry_key(next@[j]) == other by {
                        if other != key {
                            assert(known.contains_key(other));
                            let j = choose|j: int|
                                0 <= j < before.len() && #[trigger] entry_key(before[j]) == other;
                            assert(entry_key(next@[j]) == other);
                        } else {
                            assert(entry_key(next@[n]) == other);
                        }
                    }
                }
            },
        }
        i += 1;
    }
    assert(views.take(i as int) =~= views);
    next
}

/// How many topics and partitions the events come from.
pub fn partition_count(events: &[Event]) -> (count: usize)
    requires
        forall|i: int|
            0 <= i < events@.len() ==> #[trigger] can_be_committed(event::event_views(events@)[i]),
    ensures
        count == next_offsets(event::event_views(events@)).dom().len(),
{
    collect_next_offsets(events).len()
}

/// The offsets to commit once every event of a batch is delivered.
pub fn offsets_for(events: &[Event]) -> (offsets: Result<TopicPartitionList, OffsetsRefused>)
    requires
        forall|i: int|
            0 <= i < events@.len() ==> #[trigger] can_be_committed(event::event_views(events@)[i]),
        next_offsets(event::event_views(events@)).dom().len() <= librdkafka::MAX_ENTRIES,
    ensures
        offsets is Ok <==> (forall|key: (Seq<char>, i32)| #[trigger]
            next_offsets(event::event_views(events@)).contains_key(key) ==> next_offsets(
                event::event_views(events@),
            )[key] >= 0),
        offsets matches Ok(list) ==> librdkafka::listed_offsets(list) == next_offsets(
            event::event_views(events@),
        ),
{
    let ghost all = next_offsets(event::event_views(events@));
    let next = collect_next_offsets(events);
    let mut list = TopicPartitionList::new();
    let mut i: usize = 0;
    while i < next.len()
        invariant
            i <= next@.len(),
            all == next_offsets(event::event_views(events@)),
            lists(next@, all),
            all.dom().len() <= librdkafka::MAX_ENTRIES,
            forall|j: int| 0 <= j < events@.len() ==> #[trigger] can_be_committed(
                event::event_views(events@)[j],
            ),
            librdkafka::listed_offsets(list).dom().finite(),
            librdkafka::listed_offsets(list).dom().len() == i,
            forall|j: int|
                0 <= j < i ==> librdkafka::listed_offsets(list).contains_key(
                    #[trigger] entry_key(next@[j]),
                ) && librdkafka::listed_offsets(list)[entry_key(next@[j])] == next@[j].2,
            forall|key: (Seq<char>, i32)| #[trigger]
                librdkafka::listed_offsets(list).contains_key(key) ==> exists|j: int|
                    0 <= j < i && #[trigger] entry_key(next@[j]) == key,
            forall|j: int| 0 <= j < i ==> all[#[trigger] entry_key(next@[j])] >= 0,
        decreases next@.len() - i,
    {
        let (topic, partition, offset) = next[i];
        let ghost before = librdkafka::listed_offsets(list);
        proof {
            let key = (topic@, partition);
            assert(entry_key(next@[i as int]) == key);
            assert(all.contains_key(key));
            assert(!before.contains_key(key)) by {
                if before.contains_key(key) {
                    let j = choose|j: int| 0 <= j < i && #[trigger] entry_key(next@[j]) == key;
                    assert(entry_key(next@[j]) != entry_key(next@[i as int]));
                }
            }
            next_offset_is_one_past_the_highest(event::event_views(events@), key);
            let j = choose|j: int|
                0 <= j < events@.len() && #[trigger] origin(event::event_views(events@)[j]) == key;
            assert(can_be_committed(event::event_views(events@)[j]));
        }
        match add_partition_offset(&mut list, topic, partition, offset) {
            Ok(()) => {},
            Err(cause) => {
                assert(all.contains_key((topic@, partition)));
                return Err(OffsetsRefused { cause });
            },
        }
        proof {
            let key = (topic@, partition);
            let now = librdkafka::listed_offsets(list);
            assert(now.dom() =~= before.dom().insert(key));
            assert forall|other: (Seq<char>, i32)| #[trigger]
                now.contains_key(other) implies exists|j: int|
                0 <= j < i + 1 && #[trigger] entry_key(next@[j]) == other by {
                if other != key {
                    assert(before.contains_key(other));
                } else {
                    assert(entry_key(next@[i as int]) == other);
                }
            }
            assert forall|j: int| 0 <= j < i + 1 implies now.contains_key(
                #[trigger] entry_key(next@[j]),
            ) && now[entry_key(next@[j])] == next@[j].2 by {
                if j < i {
                    assert(entry_key(next@[j]) != entry_key(next@[i as int]));
                }
            }
        }
        i += 1;
    }
    proof {
        let now = librdkafka::listed_offsets(list);
        assert forall|key: (Seq<char>, i32)|
            #![trigger all.contains_key(key)]
            #![trigger now.contains_key(key)]
            (all.contains_key(key) <==> now.contains_key(key)) && (all.contains_key(key)
                ==> all[key] == now[key] && all[key] >= 0) by {
            if all.contains_key(key) {
                let j = choose|j: int|
                    0 <= j < next@.len() && #[trigger] entry_key(next@[j]) == key;
                assert(now.contains_key(entry_key(next@[j])));
            }
            if now.contains_key(key) {
                let j = choose|j: int|
                    0 <= j < next@.len() && #[trigger] entry_key(next@[j]) == key;
                assert(all.contains_key(entry_key(next@[j])));
            }
        }
        assert(now =~= all);
    }
    Ok(list)
}

/// The properties of the consumer. Offsets are committed by the router alone,
/// so everything that would move them by itself is off.
pub open spec fn consumer_properties(config: KafkaSourceConfig) -> Map<Seq<char>, Seq<char>> {
    librdkafka::overridden(
        librdkafka::no_properties()
            .insert("bootstrap.servers"@, config.brokers@)
            .insert("group.id"@, config.group_id@)
            .insert("session.timeout.ms"@, text::decimal(config.session_timeout_ms as nat))
            .insert("max.poll.interval.ms"@, text::decimal(config.max_poll_interval_ms as nat))
            .insert("enable.auto.commit"@, "false"@)
            .insert("enable.auto.offset.store"@, "false"@)
            .insert("auto.offset.reset"@, "earliest"@)
            .insert(
            "queued.max.messages.kbytes"@,
            text::decimal(config.queued_max_messages_kbytes as nat),
        ).insert("queued.min.messages"@, text::decimal(config.queued_min_messages as nat)),
        config.client_config@,
    )
}

/// A Kafka source before it runs: its id, and what its consumer is created from.
pub struct KafkaSource {
    id: Arc<str>,
    client: ClientConfig,
}

impl KafkaSource {
    /// The source's id.
    pub closed spec fn name(self) -> Seq<char> {
        (*self.id)@
    }

    /// The properties that the consumer is created with.
    pub closed spec fn settings(self) -> Map<Seq<char>, Seq<char>> {
        librdkafka::properties(self.client)
    }

    pub fn new(id: &str, config: &KafkaSourceConfig) -> (source: Self)
        ensures
            source.name() == id@,
            source.settings() == consumer_properties(*config),
    {
        let mut client = ClientConfig::new();
        set_property(&mut client, "bootstrap.servers", config.brokers.as_str());
        set_property(&mut client, "group.id", config.group_id.as_str());
        set_property(
            &mut client,
            "session.timeout.ms",
            text::decimal_string(config.session_timeout_ms).as_str(),
        );
        set_property(
            &mut client,
            "max.poll.interval.ms",
            text::decimal_string(config.max_poll_interval_ms).as_str(),
        );
        set_property(&mut client, "enable.auto.commit", "false");
        set_property(&mut client, "enable.auto.offset.store", "false");
        set_property(&mut client, "auto.offset.reset", "earliest");
        set_property(
            &mut client,
            "queued.max.messages.kbytes",
            text::decimal_string(config.queued_max_messages_kbytes).as_str(),
        );
        set_property(
            &mut client,
            "queued.min.messages",
            text::decimal_string(config.queued_min_messages).as_str(),
        );
        set_properties(&mut client, &config.client_config);
        KafkaSource { id: shared_text(id), client }
    }

    pub fn id(&self) -> (id: &Arc<str>)
        ensures
            (**id)@ == self.name(),
    {
        &self.id
    }

    pub fn client(&self) -> (client: &ClientConfig)
        ensures
            librdkafka::properties(*client) == self.settings(),
    {
        &self.client
    }
}

/// What the consumer group protocol tells a member.
#[derive(Debug, Clone, Copy, PartialEq, Eq, Structural)]
pub enum Rebalance {
    Assign { partitions: usize },
    Revoke { partitions: usize },
    Error,
}

/// Counts rebalances, which are otherwise invisible from inside the process.
///
/// A rebalance stops consumption for seconds at a time. During benchmarking a
/// 25-second stall could only be attributed by reading the broker log, because
/// nothing in the router knew it had been fenced and re-joined.
pub struct MetricsContext {
    component: Arc<str>,
}

impl MetricsContext {
    /// The source whose rebalances are counted.
    pub closed spec fn source(self) -> Seq<char> {
        (*self.component)@
    }

    pub fn new(component: &Arc<str>) -> (context: Self)
        ensures
            context.source() == (**component)@,
    {
        MetricsContext { component: Arc::clone(component) }
    }

    /// Counts a rebalance. Only the assignment half is counted; every rebalance
    /// produces exactly one, so counting both would double every event. Returns
    /// how many partitions were assigned, for the log.
    pub fn post_rebalance(&self, registry: &mut Metrics, rebalance: &Rebalance) -> (assigned: Option<
        usize,
    >)
        requires
            old(registry).sources()@.contains_key(self.source()),
        ensures
            match *rebalance {
                Rebalance::Assign { partitions } => {
                    let before = old(registry).sources()@[self.source()];
                    &&& assigned == Some(partitions)
                    &&& final(registry).sources()@ == old(registry).sources()@.insert(
                        self.source(),
                        (SourceMetrics { rebalances: metrics::counted(before.rebalances, 1), ..before }),
                    )
                    &&& final(registry).sources().ids() == old(registry).sources().ids()
                    &&& final(registry).sinks() == old(registry).sinks()
                },
                _ => assigned is None && *final(registry) == *old(registry),
            },
    {
        match rebalance {
            Rebalance::Assign { partitions } => {
                let counters = registry.source_mut(&*self.component);
                counters.rebalances = counters.rebalances.wrapping_add(1);
                Some(*partitions)
            },
            _ => None,
        }
    }
}

/// How many events pass between two throughput reports.
pub const REPORT_EVERY: u64 = 100000;

/// One throughput report: what was processed in the window since the last one,
/// and in all.
#[derive(Debug, Clone, Copy, PartialEq, Eq, Structural)]
pub struct Throughput {
    pub processed: u64,
    pub window_events: u64,
    pub window_ns: u64,
    pub total_ns: u64,
}

/// Reports throughput over the interval since the previous report, not as a
/// running average since the first message. A cumulative average keeps sinking
/// toward the mean and hides both ramp-up and stalls.
///
/// Times are nanoseconds of a clock that never runs backwards.
#[derive(Debug)]
pub struct ThroughputReporter {
    every: u64,
    next_report: u64,
    window_started: u64,
    window_events: u64,
    total_started: u64,
}

/// The first multiple of `every` past `total`.
pub open spec fn multiple_past(total: u64, every: u64) -> int {
    (total as int / every as int + 1) * every
}

/// A report is due again after at least one and at most `every` further events.
pub proof fn the_next_report_is_at_most_a_period_away(total: u64, every: u64)
    requires
        every > 0,
    ensures
        total < multiple_past(total, every) <= total + every,
        multiple_past(total, every) % (every as int) == 0,
{
    let t = total as int;
    let e = every as int;
    let q = t / e;
    assert((q + 1) * e == q * e + e) by (nonlinear_arith);
    vstd::arithmetic::div_mod::lemma_fundamental_div_mod(t, e);
    assert(q * e == e * q) by (nonlinear_arith);
    vstd::arithmetic::div_mod::lemma_mod_multiples_basic(q + 1, e);
}

impl ThroughputReporter {
    /// Events per window, when the next report is due, the events of the
    /// current window, and when window and count began.
    pub closed spec fn state(self) -> (u64, u64, u64, u64, u64) {
        (
            self.every,
            self.next_report,
            self.window_events,
            self.window_started,
            self.total_started,
        )
    }

    pub fn new(every: u64, now: u64) -> (reporter: Self)
        ensures
            reporter.state() == (
                config::at_least_one(every as int) as u64,
                config::at_least_one(every as int) as u64,
                0u64,
                now,
                now,
            ),
    {
        let every: u64 = if every < 1 {
            1
        } else {
            every
        };
        ThroughputReporter {
            every,
            next_report: every,
            window_started: now,
            window_events: 0,
            total_started: now,
        }
    }

    /// Counts `events` more, `total` in all. A report is made once the total
    /// has reached the next multiple of the window size; it starts a new window.
    pub fn record(&mut self, events: u64, total: u64, now: u64) -> (report: Option<Throughput>)
        requires
            old(self).state().0 > 0,
            old(self).state().2 + events <= u64::MAX,
            total >= old(self).state().1 ==> multiple_past(total, old(self).state().0) <= u64::MAX,
        ensures
            ({
                let (every, due, window, started, began) = old(self).state();
                let counted = (window + events) as u64;
                if total < due {
                    &&& report is None
                    &&& final(self).state() == (every, due, counted, started, began)
                } else {
                    &&& report == Some(
                        Throughput {
                            processed: total,
                            window_events: counted,
                            window_ns: metrics::difference_or_zero(now, started),
                            total_ns: metrics::difference_or_zero(now, began),
                        },
                    )
                    &&& final(self).state() == (
                        every,
                        multiple_past(total, every) as u64,
                        0u64,
                        now,
                        began,
                    )
                }
            }),
    {
        self.window_events += events;
        if total < self.next_report {
            return None;
        }
        let report = Throughput {
            processed: total,
            window_events: self.window_events,
            window_ns: now.saturating_sub(self.window_started),
            total_ns: now.saturating_sub(self.total_started),
        };
        proof {
            the_next_report_is_at_most_a_period_away(total, self.every);
            assert((total as int / self.every as int) >= 0) by (nonlinear_arith)
                requires
                    self.every > 0,
                    total >= 0,
            ;
            assert(total as int / self.every as int + 1 <= multiple_past(total, self.every))
                by (nonlinear_arith)
                requires
                    self.every > 0,
                    total as int / self.every as int >= 0,
                    multiple_past(total, self.every) == (total as int / self.every as int + 1)
                        * self.every,
            ;
        }
        self.next_report = (total / self.every + 1) * self.every;
        self.window_started = now;
        self.window_events = 0;
        Some(report)
    }
}

/// Every property of the consumer has the value that the configuration gives it,
/// numbers in decimal; what `client_config` names it decides, and nothing else is
/// set.
pub proof fn the_consumer_is_set_up_as_configured(config: KafkaSourceConfig, key: Seq<char>)
    ensures
        config.client_config@.contains_key(key) ==> consumer_properties(config).contains_key(key) && consumer_properties(config)[key]
            == config.client_config@[key]@,
        !config.client_config@.contains_key("bootstrap.servers"@) ==> consumer_properties(config).contains_key("bootstrap.servers"@) && consumer_properties(config)["bootstrap.servers"@] == config.brokers@,
        !config.client_config@.contains_key("group.id"@) ==> consumer_properties(config).contains_key("group.id"@) && consumer_properties(config)["group.id"@] == config.group_id@,
        !config.client_config@.contains_key("session.timeout.ms"@) ==> consumer_properties(config).contains_key("session.timeout.ms"@) && text::read_decimal(consumer_properties(config)["session.timeout.ms"@]) == Some(config.session_timeout_ms as nat),
        !config.client_config@.contains_key("max.poll.interval.ms"@) ==> consumer_properties(config).contains_key("max.poll.interval.ms"@) && text::read_decimal(consumer_properties(config)["max.poll.interval.ms"@]) == Some(config.max_poll_interval_ms as nat),
        !config.client_config@.contains_key("enable.auto.commit"@) ==> consumer_properties(config).contains_key("enable.auto.commit"@) && consumer_properties(config)["enable.auto.commit"@] == "false"@,
        !config.client_config@.contains_key("enable.auto.offset.store"@) ==> consumer_properties(config).contains_key("enable.auto.offset.store"@) && consumer_properties(config)["enable.auto.offset.store"@] == "false"@,
        !config.client_config@.contains_key("auto.offset.reset"@) ==> consumer_properties(config).contains_key("auto.offset.reset"@) && consumer_properties(config)["auto.offset.reset"@] == "earliest"@,
        !config.client_config@.contains_key("queued.max.messages.kbytes"@) ==> consumer_properties(config).contains_key("queued.max.messages.kbytes"@) && text::read_decimal(consumer_properties(config)["queued.max.messages.kbytes"@]) == Some(config.queued_max_messages_kbytes as nat),
        !config.client_config@.contains_key("queued.min.messages"@) ==> consumer_properties(config).contains_key("queued.min.messages"@) && text::read_decimal(consumer_properties(config)["queued.min.messages"@]) == Some(config.queued_min_messages as nat),
        consumer_properties(config).contains_key(key) ==> config.client_config@.contains_key(key) || key == "bootstrap.servers"@ || key == "group.id"@ || key == "session.timeout.ms"@ || key == "max.poll.interval.ms"@ || key == "enable.auto.commit"@ || key == "enable.auto.offset.store"@ || key == "auto.offset.reset"@ || key == "queued.max.messages.kbytes"@ || key == "queued.min.messages"@,
{
    reveal_strlit("bootstrap.servers");
    reveal_strlit("group.id");
    reveal_strlit("session.timeout.ms");
    reveal_strlit("max.poll.interval.ms");
    reveal_strlit("enable.auto.commit");
    reveal_strlit("enable.auto.offset.store");
    reveal_strlit("auto.offset.reset");
    reveal_strlit("queued.max.messages.kbytes");
    reveal_strlit("queued.min.messages");
    assert("bootstrap.servers"@.len() == 17);
    assert("group.id"@.len() == 8);
    assert("session.timeout.ms"@.len() == 18);
    assert("max.poll.interval.ms"@.len() == 20);
    assert("enable.auto.commit"@.len() == 18);
    assert("enable.auto.offset.store"@.len() == 24);
    assert("auto.offset.reset"@.len() == 17);
    assert("queued.max.messages.kbytes"@.len() == 26);
    assert("queued.min.messages"@.len() == 19);
    assert("bootstrap.servers"@[0] != "auto.offset.reset"@[0]);
    assert("session.timeout.ms"@[0] != "enable.auto.commit"@[0]);
    text::a_decimal_reads_back_as_the_number(config.session_timeout_ms as nat);
    text::a_decimal_reads_back_as_the_number(config.max_poll_interval_ms as nat);
    text::a_decimal_reads_back_as_the_number(config.queued_max_messages_kbytes as nat);
    text::a_decimal_reads_back_as_the_number(config.queued_min_messages as nat);
    let named = consumer_properties(config);
    assert(named.dom().contains(key) == named.contains_key(key));
}

/// An event can be committed unless its offset is the last one there is, or its
/// topic holds a NUL character.
pub proof fn what_can_be_committed(event: EventView)
    ensures
        can_be_committed(event) <==> event.offset < i64::MAX && forall|i: int|
            0 <= i < event.topic.len() ==> #[trigger] event.topic[i] != '\0',
{
    if !event.topic.contains('\0') {
        assert forall|i: int| 0 <= i < event.topic.len() implies #[trigger] event.topic[i]
            != '\0' by {}
    }
}

/// Any record fits whose key and payload are no longer than a slice can be.
pub proof fn every_slice_fits(record: Record<'_>)
    ensures
        (record.key matches Some(key) ==> key@.len() <= isize::MAX) && (
        record.payload matches Some(payload) ==> payload@.len() <= isize::MAX) <==> record.fits(),
{
}

} // verus!
