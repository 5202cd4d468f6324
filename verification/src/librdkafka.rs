//! What the router takes from librdkafka without talking to a broker: client
//! properties and lists of offsets.

use crate::idmap::IdMap;
use rdkafka::error::KafkaError;
use rdkafka::topic_partition_list::{Offset, TopicPartitionList};
use rdkafka::ClientConfig;
use vstd::prelude::*;

verus! {

/// The property list that a consumer or producer is created from.
#[verifier::external_type_specification]
#[verifier::external_body]
pub struct ExClientConfig(rdkafka::ClientConfig);

/// A list of topics and partitions, each with an offset.
#[verifier::external_type_specification]
#[verifier::external_body]
pub struct ExTopicPartitionList(rdkafka::topic_partition_list::TopicPartitionList);

/// Any failure that librdkafka reports.
#[verifier::external_type_specification]
#[verifier::external_body]
pub struct ExKafkaError(rdkafka::error::KafkaError);

/// The properties set so far.
pub uninterp spec fn properties(client: ClientConfig) -> Map<Seq<char>, Seq<char>>;

/// The offset of every topic and partition listed.
pub uninterp spec fn listed_offsets(list: TopicPartitionList) -> Map<(Seq<char>, i32), i64>;

/// Nothing set.
pub open spec fn no_properties() -> Map<Seq<char>, Seq<char>> {
    Map::empty()
}

/// Nothing listed.
pub open spec fn no_offsets() -> Map<(Seq<char>, i32), i64> {
    Map::empty()
}

/// `ClientConfig::new`: no property is set.
pub assume_specification[ ClientConfig::new ]() -> (client: ClientConfig)
    ensures
        properties(client) == no_properties(),
;

/// `ClientConfig::set`: the property has the new value, whatever it had before.
#[verifier::external_body]
pub(crate) fn set_property(client: &mut ClientConfig, key: &str, value: &str)
    ensures
        properties(*final(client)) == properties(*old(client)).insert(key@, value@),
{
    client.set(key, value);
}

/// `base`, with the value of every property that `entries` names taken from
/// there.
pub open spec fn overridden(
    base: Map<Seq<char>, Seq<char>>,
    entries: Map<Seq<char>, String>,
) -> Map<Seq<char>, Seq<char>> {
    Map::new(
        |key: Seq<char>| base.contains_key(key) || entries.contains_key(key),
        |key: Seq<char>|
            if entries.contains_key(key) {
                entries[key]@
            } else {
                base[key]
            },
    )
}

/// Overriding takes every named property from the entries, and leaves the others
/// as they are.
pub proof fn an_override_wins_and_the_rest_stays(
    base: Map<Seq<char>, Seq<char>>,
    entries: Map<Seq<char>, String>,
    key: Seq<char>,
)
    ensures
        entries.contains_key(key) ==> overridden(base, entries).contains_key(key) && overridden(
            base,
            entries,
        )[key] == entries[key]@,
        !entries.contains_key(key) ==> (overridden(base, entries).contains_key(key)
            <==> base.contains_key(key)),
        !entries.contains_key(key) && base.contains_key(key) ==> overridden(base, entries)[key]
            == base[key],
{
}

/// Sets every property that `entries` names.
pub(crate) fn set_properties(client: &mut ClientConfig, entries: &IdMap<String>)
    ensures
        properties(*final(client)) == overridden(properties(*old(client)), entries@),
{
    let ghost base = properties(*client);
    let ghost ids = entries.ids();
    let count: usize = entries.len();
    let mut i: usize = 0;
    while i < count
        invariant
            i <= count,
            ids == entries.ids(),
            count == ids.len(),
            forall|key: Seq<char>| #[trigger]
                properties(*client).contains_key(key) <==> base.contains_key(key) || ids.take(
                    i as int,
                ).contains(key),
            forall|key: Seq<char>| #[trigger]
                properties(*client).contains_key(key) ==> properties(*client)[key] == (if ids.take(
                    i as int,
                ).contains(key) {
                    entries@[key]@
                } else {
                    base[key]
                }),
        decreases count - i,
    {
        let ghost before = properties(*client);
        set_property(client, entries.id_at(i), entries.value_at(i).as_str());
        proof {
            let id = ids[i as int];
            let seen = ids.take(i as int);
            let now = ids.take(i + 1);
            assert(now =~= seen.push(id));
            assert forall|key: Seq<char>| #[trigger] now.contains(key) <==> seen.contains(key)
                || key == id by {
                if seen.contains(key) {
                    let k = choose|k: int| 0 <= k < seen.len() && seen[k] == key;
                    assert(now[k] == key);
                }
                if key == id {
                    assert(now[i as int] == key);
                }
            }
        }
        i += 1;
    }
    assert(ids.take(i as int) =~= ids);
    assert(properties(*client) =~= overridden(base, entries@));
}

/// `TopicPartitionList::new`: an empty list.
pub assume_specification[ TopicPartitionList::new ]() -> (list: TopicPartitionList)
    ensures
        listed_offsets(list) == no_offsets(),
;

/// The most entries that a list can grow from: librdkafka counts them in an
/// `int` and doubles its storage.
pub const MAX_ENTRIES: usize = 1073741824;

/// `TopicPartitionList::add_partition_offset` with `Offset::Offset`: lists one
/// more topic and partition. A negative offset is refused; what the list holds
/// then is not stated. A topic with a NUL character makes the call panic, and a
/// pair that is listed already would be listed twice.
#[verifier::external_body]
pub(crate) fn add_partition_offset(
    list: &mut TopicPartitionList,
    topic: &str,
    partition: i32,
    offset: i64,
) -> (added: Result<(), KafkaError>)
    requires
        !topic@.contains('\0'),
        !listed_offsets(*old(list)).contains_key((topic@, partition)),
        listed_offsets(*old(list)).dom().len() < MAX_ENTRIES,
    ensures
        added is Ok <==> offset >= 0,
        added is Ok ==> listed_offsets(*final(list)) == listed_offsets(*old(list)).insert(
            (topic@, partition),
            offset,
        ),
{
    list.add_partition_offset(topic, partition, Offset::Offset(offset))
}

} // verus!
