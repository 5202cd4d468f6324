//! A small map keyed by component id, walked in id order.

use crate::text;
use vstd::prelude::*;

verus! {

/// Values by id. Every id occurs once, and ids are walked in the order of their
/// bytes.
#[derive(Debug)]
pub struct IdMap<V> {
    ids: Vec<String>,
    values: Vec<V>,
}

/// The texts of a list of strings.
pub open spec fn texts(strings: Seq<String>) -> Seq<Seq<char>> {
    strings.map_values(|text: String| text@)
}

/// Ids in strictly ascending order.
pub open spec fn ascending(ids: Seq<Seq<char>>) -> bool {
    forall|i: int, j: int|
        #![trigger ids[i], ids[j]]
        0 <= i < j < ids.len() ==> text::text_before(ids[i], ids[j])
}

/// No id occurs twice in an ascending list.
pub proof fn lemma_ascending_unique(ids: Seq<Seq<char>>, i: int, j: int)
    requires
        ascending(ids),
        0 <= i < ids.len(),
        0 <= j < ids.len(),
        ids[i] == ids[j],
    ensures
        i == j,
{
    if i < j {
        text::lemma_bytes_before_irreflexive(vstd::utf8::encode_utf8(ids[i]));
    } else if j < i {
        text::lemma_bytes_before_irreflexive(vstd::utf8::encode_utf8(ids[i]));
    }
}

/// `f` may return `made` for this id and value.
pub open spec fn makes<V, W, F: Fn(&str, &V) -> W>(
    f: F,
    id: Seq<char>,
    value: V,
    made: W,
) -> bool {
    exists|text: &str| text@ == id && #[trigger] f.ensures((text, &value), made)
}

impl<V> View for IdMap<V> {
    type V = Map<Seq<char>, V>;

    open spec fn view(&self) -> Map<Seq<char>, V> {
        Map::new(
            |id: Seq<char>| self.ids().contains(id),
            |id: Seq<char>| self.values()[self.ids().index_of(id)],
        )
    }
}

impl<V> IdMap<V> {
    #[verifier::type_invariant]
    spec fn sorted(self) -> bool {
        &&& ascending(texts(self.ids@))
        &&& self.values@.len() == self.ids@.len()
    }

    /// The ids, in ascending order.
    pub closed spec fn ids(self) -> Seq<Seq<char>> {
        texts(self.ids@)
    }

    /// The values, in the order of their ids.
    pub closed spec fn values(self) -> Seq<V> {
        self.values@
    }

    /// The ids are ascending, and each has its value.
    pub open spec fn in_order(self) -> bool {
        ascending(self.ids()) && self.values().len() == self.ids().len()
    }

    /// The value at a position of the walk is that of the id there.
    pub proof fn lemma_value_at(self, i: int)
        requires
            self.in_order(),
            0 <= i < self.ids().len(),
        ensures
            self@.contains_key(self.ids()[i]),
            self@[self.ids()[i]] == self.values()[i],
    {
        assert(self.ids().contains(self.ids()[i]));
        lemma_ascending_unique(self.ids(), self.ids().index_of(self.ids()[i]), i);
    }

    /// An empty map.
    pub fn new() -> (map: Self)
        ensures
            map@ == Map::<Seq<char>, V>::empty(),
            map.ids().len() == 0,
            map.in_order(),
    {
        let map = IdMap { ids: Vec::new(), values: Vec::new() };
        assert(map@ =~= Map::<Seq<char>, V>::empty());
        map
    }

    /// Finds the position of `id`, or where it belongs.
    fn find(&self, id: &str) -> (found: Result<usize, usize>)
        ensures
            match found {
                Ok(i) => i < self.ids().len() && self.ids()[i as int] == id@,
                Err(i) => {
                    &&& i <= self.ids().len()
                    &&& !self.ids().contains(id@)
                    &&& forall|j: int| 0 <= j < i ==> text::text_before(#[trigger] self.ids()[j], id@)
                    &&& forall|j: int|
                        i <= j < self.ids().len() ==> text::text_before(id@, #[trigger] self.ids()[j])
                },
            },
    {
        proof {
            use_type_invariant(self);
        }
        let mut i: usize = 0;
        while i < self.ids.len()
            invariant
                i <= self.ids.len(),
                ascending(self.ids()),
                self.ids() == texts(self.ids@),
                forall|j: int| 0 <= j < i ==> text::text_before(#[trigger] self.ids()[j], id@),
            decreases self.ids.len() - i,
        {
            match text::text_order(self.ids[i].as_str(), id) {
                text::TextOrder::Same => {
                    return Ok(i);
                },
                text::TextOrder::After => {
                    proof {
                        assert forall|j: int| i <= j < self.ids().len() implies text::text_before(
                            id@,
                            #[trigger] self.ids()[j],
                        ) by {
                            if i < j {
                                text::lemma_bytes_before_transitive(
                                    vstd::utf8::encode_utf8(id@),
                                    vstd::utf8::encode_utf8(self.ids()[i as int]),
                                    vstd::utf8::encode_utf8(self.ids()[j]),
                                );
                            }
                        }
                        self.lemma_absent(id@, i as int);
                    }
                    return Err(i);
                },
                text::TextOrder::Before => {},
            }
            i += 1;
        }
        proof {
            self.lemma_absent(id@, i as int);
        }
        Err(i)
    }

    proof fn lemma_absent(self, id: Seq<char>, i: int)
        requires
            0 <= i <= self.ids().len(),
            forall|j: int| 0 <= j < i ==> text::text_before(#[trigger] self.ids()[j], id),
            forall|j: int| i <= j < self.ids().len() ==> text::text_before(id, #[trigger] self.ids()[j]),
        ensures
            !self.ids().contains(id),
    {
        if self.ids().contains(id) {
            let j = choose|j: int| 0 <= j < self.ids().len() && self.ids()[j] == id;
            text::lemma_bytes_before_irreflexive(vstd::utf8::encode_utf8(id));
        }
    }

    /// Sets the value of `id`, replacing an earlier one.
    pub fn insert(&mut self, id: String, value: V)
        ensures
            final(self)@ == old(self)@.insert(id@, value),
            final(self).in_order(),
    {
        proof {
            use_type_invariant(&*self);
        }
        let ghost before = *self;
        let ghost key = id@;
        let found = self.find(id.as_str());
        let mut taken: IdMap<V> = IdMap::new();
        std::mem::swap(self, &mut taken);
        let IdMap { ids: mut ids, values: mut values } = taken;
        match found {
            Ok(i) => {
                values[i] = value;
            },
            Err(i) => {
                ids.insert(i, id);
                values.insert(i, value);
            },
        }
        let ghost place: Result<int, int> = match found {
            Ok(i) => Ok(i as int),
            Err(i) => Err(i as int),
        };
        proof {
            if let Err(i) = found {
                assert(texts(ids@) =~= before.ids().insert(i as int, key));
            }
            lemma_insert_sorted(before.ids(), key, place, texts(ids@));
        }
        *self = IdMap { ids, values };
        proof {
            let now = *self;
            assert forall|other: Seq<char>| #[trigger]
                now@.contains_key(other) == before@.insert(key, value).contains_key(other) && (
            now@.contains_key(other) ==> now@[other] == before@.insert(key, value)[other]) by {
                lemma_insert_lookup(before, key, value, place, now, other);
            }
            assert(now@ =~= before@.insert(key, value));
        }
    }

    /// The value of `id`.
    pub fn get(&self, id: &str) -> (value: Option<&V>)
        ensures
            match value {
                Some(value) => self@.contains_key(id@) && *value == self@[id@],
                None => !self@.contains_key(id@),
            },
    {
        proof {
            use_type_invariant(self);
        }
        match self.find(id) {
            Ok(i) => {
                proof {
                    lemma_ascending_unique(self.ids(), self.ids().index_of(id@), i as int);
                }
                Some(&self.values[i])
            },
            Err(_) => None,
        }
    }

    /// Mutable access to the value of `id`.
    pub fn get_mut(&mut self, id: &str) -> (value: Option<&mut V>)
        ensures
            match value {
                Some(value) => {
                    &&& old(self)@.contains_key(id@)
                    &&& *value == old(self)@[id@]
                    &&& final(self)@ == old(self)@.insert(id@, *final(value))
                    &&& final(self).ids() == old(self).ids()
                    &&& final(self).values() == old(self).values().update(
                        old(self).ids().index_of(id@),
                        *final(value),
                    )
                },
                None => !old(self)@.contains_key(id@) && *final(self) == *old(self),
            },
    {
        proof {
            use_type_invariant(&*self);
        }
        let ghost before = *self;
        match self.find(id) {
            Ok(i) => {
                proof {
                    lemma_ascending_unique(before.ids(), before.ids().index_of(id@), i as int);
                    assert forall|value: V, now: IdMap<V>|
                        now.ids() == before.ids() && now.values() == #[trigger] before.values().update(
                            i as int,
                            value,
                        ) implies #[trigger] now@ == before@.insert(id@, value) by {
                        lemma_replace(before, i as int, value, now);
                    }
                }
                Some(&mut self.values[i])
            },
            Err(_) => None,
        }
    }

    pub fn contains(&self, id: &str) -> (present: bool)
        ensures
            present == self@.contains_key(id@),
    {
        self.find(id).is_ok()
    }

    pub fn len(&self) -> (len: usize)
        ensures
            len == self.ids().len(),
            len == self.values().len(),
    {
        proof {
            use_type_invariant(self);
        }
        self.ids.len()
    }

    pub fn is_empty(&self) -> (empty: bool)
        ensures
            empty == (self.ids().len() == 0),
    {
        self.ids.is_empty()
    }

    /// The same ids with other values, given in the order of the walk.
    fn with_values<W>(&self, values: Vec<W>) -> (map: IdMap<W>)
        requires
            values@.len() == self.ids().len(),
        ensures
            map.ids() == self.ids(),
            map.values() == values@,
            map.in_order(),
    {
        proof {
            use_type_invariant(self);
        }
        let ids = self.ids.clone();
        proof {
            assert forall|i: int| 0 <= i < ids@.len() implies ids@[i] == #[trigger] self.ids@[i] by {
                assert(cloned::<String>(self.ids@[i], ids@[i]));
            }
            assert(texts(ids@) =~= texts(self.ids@));
        }
        IdMap { ids, values }
    }

    /// The same ids, each with what `f` makes of it and its value.
    pub fn mapped<W, F: Fn(&str, &V) -> W>(&self, f: F) -> (map: IdMap<W>)
        requires
            forall|id: &str, value: &V| #[trigger] f.requires((id, value)),
        ensures
            map.ids() == self.ids(),
            map.values().len() == self.values().len(),
            map.in_order(),
            forall|i: int|
                0 <= i < self.values().len() ==> makes(
                    f,
                    self.ids()[i],
                    self.values()[i],
                    #[trigger] map.values()[i],
                ),
    {
        let mut values: Vec<W> = Vec::new();
        let count: usize = self.len();
        let mut i: usize = 0;
        while i < count
            invariant
                i <= count,
                count == self.ids().len(),
                count == self.values().len(),
                values@.len() == i,
                forall|id: &str, value: &V| #[trigger] f.requires((id, value)),
                forall|j: int|
                    0 <= j < i ==> makes(f, self.ids()[j], self.values()[j], #[trigger] values@[j]),
            decreases count - i,
        {
            let id = self.id_at(i);
            let value = f(id, self.value_at(i));
            assert(f.ensures((id, &self.values()[i as int]), value));
            values.push(value);
            i += 1;
        }
        self.with_values(values)
    }

    /// The id at a position of the walk.
    pub fn id_at(&self, i: usize) -> (id: &str)
        requires
            i < self.ids().len(),
        ensures
            id@ == self.ids()[i as int],
    {
        self.ids[i].as_str()
    }

    /// The value at a position of the walk.
    pub fn value_at(&self, i: usize) -> (value: &V)
        requires
            i < self.ids().len(),
        ensures
            *value == self@[self.ids()[i as int]],
            *value == self.values()[i as int],
    {
        proof {
            use_type_invariant(self);
            self.lemma_value_at(i as int);
        }
        &self.values[i]
    }
}

impl<V: Clone> Clone for IdMap<V> {
    fn clone(&self) -> (copy: Self)
        ensures
            copy.ids() == self.ids(),
            copy.in_order(),
            forall|i: int|
                0 <= i < self.ids().len() ==> cloned::<V>(
                    self.values()[i],
                    #[trigger] copy.values()[i],
                ),
    {
        proof {
            use_type_invariant(self);
        }
        let ids = self.ids.clone();
        let values = self.values.clone();
        proof {
            assert forall|i: int| 0 <= i < ids@.len() implies ids@[i] == #[trigger] self.ids@[i] by {
                assert(cloned::<String>(self.ids@[i], ids@[i]));
            }
            assert(texts(ids@) =~= texts(self.ids@));
        }
        IdMap { ids, values }
    }
}

/// Putting a new id where it belongs keeps the ids ascending.
proof fn lemma_insert_sorted(
    ids: Seq<Seq<char>>,
    id: Seq<char>,
    found: Result<int, int>,
    now: Seq<Seq<char>>,
)
    requires
        ascending(ids),
        match found {
            Ok(i) => now == ids,
            Err(i) => {
                &&& 0 <= i <= ids.len()
                &&& now == ids.insert(i, id)
                &&& forall|j: int| 0 <= j < i ==> text::text_before(#[trigger] ids[j], id)
                &&& forall|j: int| i <= j < ids.len() ==> text::text_before(id, #[trigger] ids[j])
            },
        },
    ensures
        ascending(now),
{
    if let Err(i) = found {
        assert forall|a: int, b: int|
            #![trigger now[a], now[b]]
            0 <= a < b < now.len() implies text::text_before(now[a], now[b]) by {
            if a < i {
                assert(now[a] == ids[a]);
            } else if a > i {
                assert(now[a] == ids[a - 1]);
            }
            if b < i {
                assert(now[b] == ids[b]);
            } else if b > i {
                assert(now[b] == ids[b - 1]);
            }
        }
    }
}

/// What a lookup finds after an insertion.
proof fn lemma_insert_lookup<V>(
    before: IdMap<V>,
    id: Seq<char>,
    value: V,
    found: Result<int, int>,
    now: IdMap<V>,
    other: Seq<char>,
)
    requires
        ascending(before.ids()),
        ascending(now.ids()),
        before.values().len() == before.ids().len(),
        match found {
            Ok(i) => {
                &&& 0 <= i < before.ids().len()
                &&& before.ids()[i] == id
                &&& now.ids() == before.ids()
                &&& now.values() == before.values().update(i, value)
            },
            Err(i) => {
                &&& 0 <= i <= before.ids().len()
                &&& !before.ids().contains(id)
                &&& now.ids() == before.ids().insert(i, id)
                &&& now.values() == before.values().insert(i, value)
            },
        },
    ensures
        now@.contains_key(other) == before@.insert(id, value).contains_key(other),
        now@.contains_key(other) ==> now@[other] == before@.insert(id, value)[other],
{
    let ids = now.ids();
    let old_ids = before.ids();
    match found {
        Ok(i) => {
            if other == id {
                assert(ids[i] == other);
                lemma_ascending_unique(ids, ids.index_of(other), i);
            } else if ids.contains(other) {
                let k = ids.index_of(other);
                assert(k != i);
            }
        },
        Err(i) => {
            if other == id {
                assert(ids[i] == other);
                lemma_ascending_unique(ids, ids.index_of(other), i);
            } else if old_ids.contains(other) {
                let k = old_ids.index_of(other);
                let shifted = if k < i {
                    k
                } else {
                    k + 1
                };
                assert(ids[shifted] == other);
                lemma_ascending_unique(ids, ids.index_of(other), shifted);
            } else if ids.contains(other) {
                let k = ids.index_of(other);
                assert(k != i);
                if k < i {
                    assert(old_ids[k] == other);
                } else {
                    assert(old_ids[k - 1] == other);
                }
            }
        },
    }
}

/// Replacing the value at a position replaces the value of its id.
proof fn lemma_replace<V>(before: IdMap<V>, i: int, value: V, now: IdMap<V>)
    requires
        ascending(before.ids()),
        before.values().len() == before.ids().len(),
        0 <= i < before.ids().len(),
        now.ids() == before.ids(),
        now.values() == before.values().update(i, value),
    ensures
        now@ == before@.insert(before.ids()[i], value),
{
    let id = before.ids()[i];
    assert forall|other: Seq<char>| #[trigger]
        now@.contains_key(other) == before@.insert(id, value).contains_key(other) && (
    now@.contains_key(other) ==> now@[other] == before@.insert(id, value)[other]) by {
        lemma_insert_lookup(before, id, value, Ok(i), now, other);
    }
    assert(now@ =~= before@.insert(id, value));
}

/// A map in order holds every id of its walk once, each with its own value, and no
/// other; the walk goes by the bytes of the ids.
pub proof fn a_map_holds_what_its_walk_shows<V>(map: IdMap<V>, id: Seq<char>, i: int, j: int)
    requires
        map.in_order(),
        0 <= i < j < map.ids().len(),
    ensures
        map@.contains_key(id) <==> exists|n: int| 0 <= n < map.ids().len() && map.ids()[n] == id,
        map@[map.ids()[i]] == map.values()[i],
        map.ids()[i] != map.ids()[j],
        text::text_before(map.ids()[i], map.ids()[j]),
        map.values().len() == map.ids().len(),
{
    map.lemma_value_at(i);
    text::lemma_bytes_before_irreflexive(vstd::utf8::encode_utf8(map.ids()[i]));
}

} // verus!
