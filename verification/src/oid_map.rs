//! Sets of object ids and maps keyed by them.
//!
//! Both remember the order in which ids were added, so a walk over one is
//! deterministic. Lookups go through a table keyed by the leading bytes of the
//! id.

use crate::object_id::ObjectId;
use std::collections::HashMap;
use vstd::prelude::*;

verus! {

broadcast use vstd::std_specs::hash::group_hash_axioms;

/// A list of distinct ids and the table that finds an id's position in it.
struct Lookup {
    items: Vec<ObjectId>,
    buckets: HashMap<u64, Vec<usize>>,
}

impl Lookup {
    spec fn wf(self) -> bool {
        &&& self.items@.no_duplicates()
        &&& forall|k: u64, j: int|
            #![trigger self.buckets@[k]@[j]]
            self.buckets@.contains_key(k) && 0 <= j < self.buckets@[k]@.len() ==> {
                &&& self.buckets@[k]@[j] < self.items@.len()
                &&& self.items@[self.buckets@[k]@[j] as int].spec_key() == k
            }
        &&& forall|i: int|
            #![trigger self.items@[i]]
            0 <= i < self.items@.len() ==> {
                &&& self.buckets@.contains_key(self.items@[i].spec_key())
                &&& self.buckets@[self.items@[i].spec_key()]@.contains(i as usize)
            }
    }

    fn new() -> (lookup: Lookup)
        ensures
            lookup.wf(),
            lookup.items@ == Seq::<ObjectId>::empty(),
    {
        Lookup { items: Vec::new(), buckets: HashMap::new() }
    }

    fn find(&self, oid: &ObjectId) -> (position: Option<usize>)
        requires
            self.wf(),
        ensures
            match position {
                Some(i) => i < self.items@.len() && self.items@[i as int] == *oid,
                None => !self.items@.contains(*oid),
            },
    {
        let key: u64 = oid.key();
        match self.buckets.get(&key) {
            None => {
                proof {
                    assert forall|i: int| 0 <= i < self.items@.len() implies self.items@[i] != *oid by {}
                }
                None
            },
            Some(bucket) => {
                let mut j: usize = 0;
                while j < bucket.len()
                    invariant
                        self.wf(),
                        key == oid.spec_key(),
                        self.buckets@.contains_key(key),
                        *bucket == self.buckets@[key],
                        j <= bucket@.len(),
                        forall|m: int| 0 <= m < j ==> self.items@[(#[trigger] bucket@[m]) as int] != *oid,
                    decreases bucket@.len() - j,
                {
                    let i: usize = bucket[j];
                    assert(self.buckets@[key]@[j as int] == i);
                    if self.items[i] == *oid {
                        return Some(i);
                    }
                    j += 1;
                }
                proof {
                    assert forall|i: int| 0 <= i < self.items@.len() implies self.items@[i] != *oid by {
                        if self.items@[i] == *oid {
                            assert(i <= self.items.len());
                            assert(bucket@.contains(i as usize));
                            let m = choose|m: int| 0 <= m < bucket@.len() && bucket@[m] == i as usize;
                            assert(self.items@[bucket@[m] as int] != *oid);
                        }
                    }
                }
                None
            },
        }
    }

    fn insert(&mut self, oid: ObjectId) -> (fresh: bool)
        requires
            old(self).wf(),
        ensures
            final(self).wf(),
            fresh == !old(self).items@.contains(oid),
            fresh ==> final(self).items@ == old(self).items@.push(oid),
            !fresh ==> final(self).items@ == old(self).items@,
    {
        match self.find(&oid) {
            Some(i) => {
                assert(self.items@[i as int] == oid);
                false
            },
            None => {
                let key: u64 = oid.key();
                let position: usize = self.items.len();
                let ghost before = *self;
                let mut bucket: Vec<usize> = match self.buckets.remove(&key) {
                    Some(bucket) => bucket,
                    None => Vec::new(),
                };
                bucket.push(position);
                self.buckets.insert(key, bucket);
                self.items.push(oid);
                proof {
                    let kept = bucket@.drop_last();
                    assert(before.buckets@.contains_key(key) ==> before.buckets@[key]@ =~= kept);
                    assert forall|k: u64, j: int|
                        #![trigger self.buckets@[k]@[j]]
                        self.buckets@.contains_key(k) && 0 <= j < self.buckets@[k]@.len() implies {
                        &&& self.buckets@[k]@[j] < self.items@.len()
                        &&& self.items@[self.buckets@[k]@[j] as int].spec_key() == k
                    } by {
                        if k == key {
                            if j < kept.len() {
                                assert(before.buckets@[k]@[j] == self.buckets@[k]@[j]);
                            }
                        } else {
                            assert(before.buckets@.contains_key(k));
                            assert(before.buckets@[k]@[j] == self.buckets@[k]@[j]);
                        }
                    }
                    assert forall|i: int|
                        #![trigger self.items@[i]]
                        0 <= i < self.items@.len() implies {
                        &&& self.buckets@.contains_key(self.items@[i].spec_key())
                        &&& self.buckets@[self.items@[i].spec_key()]@.contains(i as usize)
                    } by {
                        if i < position {
                            assert(before.items@[i] == self.items@[i]);
                            let k = self.items@[i].spec_key();
                            if k == key {
                                let m = choose|m: int|
                                    0 <= m < before.buckets@[k]@.len() && before.buckets@[k]@[m] == i as usize;
                                assert(bucket@[m] == i as usize);
                            }
                        } else {
                            assert(bucket@[bucket@.len() - 1] == position);
                        }
                    }
                    assert(self.items@.no_duplicates());
                }
                true
            },
        }
    }
}

/// A set of object ids.
pub struct OidSet {
    lookup: Lookup,
}

impl View for OidSet {
    type V = Set<ObjectId>;

    open spec fn view(&self) -> Set<ObjectId> {
        self.items().to_set()
    }
}

impl OidSet {
    #[verifier::type_invariant]
    closed spec fn valid(self) -> bool {
        self.lookup.wf()
    }

    /// The ids in the order in which they were added.
    pub closed spec fn items(self) -> Seq<ObjectId> {
        self.lookup.items@
    }

    pub fn new() -> (set: OidSet)
        ensures
            set@ == Set::<ObjectId>::empty(),
            set.items() == Seq::<ObjectId>::empty(),
    {
        let set = OidSet { lookup: Lookup::new() };
        assert(set@ =~= Set::<ObjectId>::empty());
        set
    }

    pub fn len(&self) -> (len: usize)
        ensures
            len == self.items().len(),
            self.items().no_duplicates(),
    {
        proof {
            use_type_invariant(self);
        }
        self.lookup.items.len()
    }

    pub fn is_empty(&self) -> (empty: bool)
        ensures
            empty == (self@ == Set::<ObjectId>::empty()),
            empty == (self.items().len() == 0),
    {
        proof {
            if self.items().len() > 0 {
                assert(self@.contains(self.items()[0]));
            } else {
                assert(self@ =~= Set::<ObjectId>::empty());
            }
        }
        self.lookup.items.len() == 0
    }

    /// The id added as the `i`-th.
    pub fn get(&self, i: usize) -> (oid: ObjectId)
        requires
            i < self.items().len(),
        ensures
            oid == self.items()[i as int],
            self@.contains(oid),
    {
        self.lookup.items[i]
    }

    pub fn contains(&self, oid: &ObjectId) -> (found: bool)
        ensures
            found == self@.contains(*oid),
    {
        proof {
            use_type_invariant(self);
        }
        match self.lookup.find(oid) {
            Some(i) => {
                assert(self.items()[i as int] == *oid);
                true
            },
            None => false,
        }
    }

    /// Where `oid` stands in the order of addition.
    pub fn position(&self, oid: &ObjectId) -> (position: Option<usize>)
        ensures
            position is Some <==> self@.contains(*oid),
            position matches Some(i) ==> i < self.items().len() && self.items()[i as int] == *oid,
    {
        proof {
            use_type_invariant(self);
        }
        self.lookup.find(oid)
    }

    /// Adds `oid`; tells whether it was new.
    pub fn insert(&mut self, oid: ObjectId) -> (fresh: bool)
        ensures
            fresh == !old(self)@.contains(oid),
            final(self)@ == old(self)@.insert(oid),
            final(self).items() == if fresh {
                old(self).items().push(oid)
            } else {
                old(self).items()
            },
    {
        proof {
            use_type_invariant(&*self);
        }
        let ghost before = self.items();
        let mut taken = OidSet::new();
        std::mem::swap(self, &mut taken);
        let OidSet { mut lookup } = taken;
        let fresh = lookup.insert(oid);
        *self = OidSet { lookup };
        proof {
            if fresh {
                assert(self.items() == before.push(oid));
                before.lemma_push_to_set_commute(oid);
            } else {
                assert(before.to_set().contains(oid));
                assert(before.to_set() =~= before.to_set().insert(oid));
            }
        }
        fresh
    }

    /// The set of the ids in `oids`.
    pub fn from_slice(oids: &[ObjectId]) -> (set: OidSet)
        ensures
            set@ == oids@.to_set(),
    {
        let mut set = OidSet::new();
        let mut i: usize = 0;
        while i < oids.len()
            invariant
                i <= oids@.len(),
                set@ == oids@.take(i as int).to_set(),
            decreases oids@.len() - i,
        {
            set.insert(oids[i]);
            proof {
                assert(oids@.take(i + 1) =~= oids@.take(i as int).push(oids@[i as int]));
                oids@.take(i as int).lemma_push_to_set_commute(oids@[i as int]);
            }
            i += 1;
        }
        assert(oids@.take(i as int) =~= oids@);
        set
    }

    /// The ids in the order in which they were added.
    pub fn to_vec(&self) -> (oids: Vec<ObjectId>)
        ensures
            oids@ == self.items(),
            oids@.no_duplicates(),
            oids@.to_set() == self@,
    {
        proof {
            use_type_invariant(self);
        }
        let mut oids: Vec<ObjectId> = Vec::new();
        let mut i: usize = 0;
        while i < self.lookup.items.len()
            invariant
                i <= self.lookup.items@.len(),
                oids@ == self.lookup.items@.take(i as int),
            decreases self.lookup.items@.len() - i,
        {
            oids.push(self.lookup.items[i]);
            assert(self.lookup.items@.take(i + 1) =~= self.lookup.items@.take(i as int).push(
                self.lookup.items@[i as int],
            ));
            i += 1;
        }
        assert(self.lookup.items@.take(i as int) =~= self.lookup.items@);
        oids
    }
}

/// A map from object ids to values.
pub struct OidMap<V> {
    inner: Entries<V>,
}

struct Entries<V> {
    lookup: Lookup,
    values: Vec<V>,
}

impl<V> Entries<V> {
    spec fn wf(self) -> bool {
        &&& self.lookup.wf()
        &&& self.values@.len() == self.lookup.items@.len()
    }

    fn insert(&mut self, oid: ObjectId, value: V)
        requires
            old(self).wf(),
        ensures
            final(self).wf(),
            old(self).lookup.items@.contains(oid) ==> {
                &&& final(self).lookup.items@ == old(self).lookup.items@
                &&& exists|i: int|
                    #![trigger old(self).lookup.items@[i]]
                    0 <= i < old(self).values@.len() && old(self).lookup.items@[i] == oid
                        && final(self).values@ == old(self).values@.update(i, value)
            },
            !old(self).lookup.items@.contains(oid) ==> {
                &&& final(self).lookup.items@ == old(self).lookup.items@.push(oid)
                &&& final(self).values@ == old(self).values@.push(value)
            },
    {
        match self.lookup.find(&oid) {
            Some(i) => {
                assert(old(self).lookup.items@[i as int] == oid);
                self.values.set(i, value);
            },
            None => {
                self.lookup.insert(oid);
                self.values.push(value);
            },
        }
    }
}

/// The map that sends each key to the value at the same position.
pub open spec fn zip_map<V>(keys: Seq<ObjectId>, values: Seq<V>) -> Map<ObjectId, V> {
    Map::new(|oid: ObjectId| keys.contains(oid), |oid: ObjectId| values[keys.index_of(oid)])
}

impl<V> View for OidMap<V> {
    type V = Map<ObjectId, V>;

    open spec fn view(&self) -> Map<ObjectId, V> {
        zip_map(self.keys(), self.values())
    }
}

impl<V> OidMap<V> {
    #[verifier::type_invariant]
    closed spec fn valid(self) -> bool {
        self.inner.wf()
    }

    /// The keys in the order in which they were first added.
    pub closed spec fn keys(self) -> Seq<ObjectId> {
        self.inner.lookup.items@
    }

    /// The value of each key, in the order of the keys.
    pub closed spec fn values(self) -> Seq<V> {
        self.inner.values@
    }

    pub fn new() -> (map: OidMap<V>)
        ensures
            map@ == Map::<ObjectId, V>::empty(),
            map.keys() == Seq::<ObjectId>::empty(),
    {
        let map = OidMap { inner: Entries { lookup: Lookup::new(), values: Vec::new() } };
        assert(map@ =~= Map::<ObjectId, V>::empty());
        map
    }

    pub fn len(&self) -> (len: usize)
        ensures
            len == self.keys().len(),
            self.keys().no_duplicates(),
            self.values().len() == self.keys().len(),
    {
        proof {
            use_type_invariant(self);
        }
        self.inner.values.len()
    }

    pub fn contains_key(&self, oid: &ObjectId) -> (found: bool)
        ensures
            found == self@.contains_key(*oid),
    {
        proof {
            use_type_invariant(self);
        }
        match self.inner.lookup.find(oid) {
            Some(i) => {
                assert(self.keys()[i as int] == *oid);
                true
            },
            None => false,
        }
    }

    pub fn get(&self, oid: &ObjectId) -> (value: Option<&V>)
        ensures
            value is Some <==> self@.contains_key(*oid),
            value matches Some(v) ==> *v == self@[*oid],
    {
        proof {
            use_type_invariant(self);
        }
        match self.inner.lookup.find(oid) {
            Some(i) => {
                proof {
                    let keys = self.keys();
                    assert(keys[i as int] == *oid);
                    assert(keys.contains(*oid));
                    let j = keys.index_of(*oid);
                    assert(keys[j] == *oid && 0 <= j < keys.len());
                    assert(i == j);
                }
                Some(&self.inner.values[i])
            },
            None => None,
        }
    }

    /// The `i`-th key in the order of addition.
    pub fn key_at(&self, i: usize) -> (oid: ObjectId)
        requires
            i < self.keys().len(),
        ensures
            oid == self.keys()[i as int],
            self@.contains_key(oid),
    {
        self.inner.lookup.items[i]
    }

    /// The value of the `i`-th key.
    pub fn value_at(&self, i: usize) -> (value: &V)
        requires
            i < self.keys().len(),
        ensures
            *value == self.values()[i as int],
            *value == self@[self.keys()[i as int]],
    {
        proof {
            use_type_invariant(self);
            let keys = self.keys();
            assert(keys.contains(keys[i as int]));
            let j = keys.index_of(keys[i as int]);
            assert(keys[j] == keys[i as int] && 0 <= j < keys.len());
            assert(i == j);
        }
        &self.inner.values[i]
    }

    /// Sets the value of `oid`.
    pub fn insert(&mut self, oid: ObjectId, value: V)
        ensures
            final(self)@ == old(self)@.insert(oid, value),
            final(self).keys() == if old(self)@.contains_key(oid) {
                old(self).keys()
            } else {
                old(self).keys().push(oid)
            },
    {
        proof {
            use_type_invariant(&*self);
        }
        let ghost before = *self;
        let mut taken = OidMap::new();
        std::mem::swap(self, &mut taken);
        let OidMap { mut inner } = taken;
        inner.insert(oid, value);
        *self = OidMap { inner };
        proof {
            let keys = before.keys();
            let values = before.values();
            if keys.contains(oid) {
                let i = choose|i: int|
                    #![trigger keys[i]]
                    0 <= i < values.len() && keys[i] == oid && self.values() == values.update(i, value);
                assert(keys[i] == oid && 0 <= i < values.len() && self.values() == values.update(i, value));
                assert forall|o: ObjectId| keys.contains(o) implies #[trigger] self@[o] == before@.insert(oid, value)[o] by {
                    let j = keys.index_of(o);
                    assert(keys[j] == o && 0 <= j < keys.len());
                    if o == oid {
                        assert(i == j);
                    }
                }
                assert(self@ =~= before@.insert(oid, value));
            } else {
                let next = keys.push(oid);
                assert(self.keys() == next);
                assert(next[keys.len() as int] == oid);
                assert forall|o: ObjectId| next.contains(o) == (keys.contains(o) || o == oid) by {
                    if keys.contains(o) {
                        let j = keys.index_of(o);
                        assert(next[j] == o);
                    }
                }
                assert forall|o: ObjectId| next.contains(o) implies #[trigger] self@[o] == before@.insert(oid, value)[o] by {
                    let j = next.index_of(o);
                    assert(next[j] == o && 0 <= j < next.len());
                    if o != oid {
                        let m = keys.index_of(o);
                        assert(keys[m] == o && 0 <= m < keys.len());
                        assert(next[m] == o);
                        assert(j < keys.len());
                        assert(keys[j] == o);
                        assert(j == m);
                    }
                }
                assert(self@ =~= before@.insert(oid, value));
            }
        }
    }
}

} // verus!
