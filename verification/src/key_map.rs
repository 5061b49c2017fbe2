//! A map from small keys to values, grouped by a number that each key gives.

use crate::object_id::ObjectId;
use std::collections::HashMap;
use vstd::prelude::*;

verus! {

broadcast use vstd::std_specs::hash::group_hash_axioms;

/// What a map can be keyed by.
pub trait MapKey: Copy {
    /// The number that groups keys.
    spec fn spec_slot(self) -> u64;

    /// The number that groups keys.
    fn slot(&self) -> (slot: u64)
        ensures
            slot == self.spec_slot(),
    ;

    /// Whether two keys are the same.
    fn is_key(&self, other: &Self) -> (same: bool)
        ensures
            same == (*self == *other),
    ;
}

impl MapKey for u32 {
    open spec fn spec_slot(self) -> u64 {
        self as u64
    }

    fn slot(&self) -> (slot: u64) {
        *self as u64
    }

    fn is_key(&self, other: &u32) -> (same: bool) {
        *self == *other
    }
}

impl MapKey for u64 {
    open spec fn spec_slot(self) -> u64 {
        self
    }

    fn slot(&self) -> (slot: u64) {
        *self
    }

    fn is_key(&self, other: &u64) -> (same: bool) {
        *self == *other
    }
}

impl MapKey for ObjectId {
    open spec fn spec_slot(self) -> u64 {
        self.spec_key()
    }

    fn slot(&self) -> (slot: u64) {
        self.key()
    }

    fn is_key(&self, other: &ObjectId) -> (same: bool) {
        self.same(other)
    }
}

/// A map from keys to values.
#[verifier::reject_recursive_types(K)]
#[verifier::reject_recursive_types(V)]
pub(crate) struct KeyMap<K: MapKey, V> {
    groups: HashMap<u64, Vec<(K, V)>>,
}

/// Whether a group holds a key.
spec fn holds<K, V>(group: Seq<(K, V)>, key: K) -> bool {
    exists|i: int| 0 <= i < group.len() && (#[trigger] group[i]).0 == key
}

/// Where a group holds a key.
spec fn place<K, V>(group: Seq<(K, V)>, key: K) -> int {
    choose|i: int| 0 <= i < group.len() && (#[trigger] group[i]).0 == key
}

/// Whether a group holds each of its keys once, and only keys of its number.
spec fn is_group<K: MapKey, V>(slot: u64, group: Seq<(K, V)>) -> bool {
    &&& forall|i: int| 0 <= i < group.len() ==> (#[trigger] group[i]).0.spec_slot() == slot
    &&& forall|i: int, j: int|
        #![trigger group[i], group[j]]
        0 <= i < group.len() && 0 <= j < group.len() && group[i].0 == group[j].0 ==> i == j
}

/// What groups hold under a key.
spec fn held<K: MapKey, V>(groups: Map<u64, Vec<(K, V)>>, key: K) -> Option<V> {
    let slot = key.spec_slot();
    if groups.contains_key(slot) && holds(groups[slot]@, key) {
        Some(groups[slot]@[place(groups[slot]@, key)].1)
    } else {
        None
    }
}

proof fn lemma_place<K: MapKey, V>(slot: u64, group: Seq<(K, V)>, i: int)
    requires
        is_group(slot, group),
        0 <= i < group.len(),
    ensures
        holds(group, group[i].0),
        place(group, group[i].0) == i,
{
    let key = group[i].0;
    assert(holds(group, key));
    let j = place(group, key);
    assert(0 <= j < group.len() && group[j].0 == key);
}

/// A group without one of its keys holds the others as it did.
proof fn lemma_group_without<K: MapKey, V>(slot: u64, group: Seq<(K, V)>, at: int, key: K)
    requires
        is_group(slot, group),
        0 <= at < group.len(),
    ensures
        is_group(slot, group.remove(at)),
        holds(group.remove(at), key) == (holds(group, key) && key != group[at].0),
        holds(group.remove(at), key) ==> group.remove(at)[place(group.remove(at), key)].1 == group[place(
            group,
            key,
        )].1,
{
    let rest = group.remove(at);
    assert forall|i: int| 0 <= i < rest.len() implies (#[trigger] rest[i]) == group[if i < at {
        i
    } else {
        i + 1
    }] by {}
    assert(is_group(slot, rest)) by {
        assert forall|i: int, j: int|
            #![trigger rest[i], rest[j]]
            0 <= i < rest.len() && 0 <= j < rest.len() && rest[i].0 == rest[j].0 implies i == j by {
            let a = if i < at {
                i
            } else {
                i + 1
            };
            let b = if j < at {
                j
            } else {
                j + 1
            };
            assert(group[a].0 == group[b].0);
        }
    }
    if holds(rest, key) {
        let i = place(rest, key);
        let a = if i < at {
            i
        } else {
            i + 1
        };
        assert(rest[i].0 == key);
        assert(group[a] == rest[i]);
        lemma_place(slot, group, a);
    }
    if holds(group, key) && key != group[at].0 {
        let a = place(group, key);
        assert(group[a].0 == key);
        let i = if a < at {
            a
        } else {
            a - 1
        };
        assert(rest[i] == group[a]);
    }
}

/// A group with one more key holds that, and the others as it did.
proof fn lemma_group_with<K: MapKey, V>(slot: u64, group: Seq<(K, V)>, entry: (K, V), key: K)
    requires
        is_group(slot, group),
        entry.0.spec_slot() == slot,
        !holds(group, entry.0),
    ensures
        is_group(slot, group.push(entry)),
        holds(group.push(entry), key) == (holds(group, key) || key == entry.0),
        key == entry.0 ==> group.push(entry)[place(group.push(entry), key)].1 == entry.1,
        holds(group, key) ==> group.push(entry)[place(group.push(entry), key)].1 == group[place(group, key)].1,
{
    let grown = group.push(entry);
    let n = group.len() as int;
    assert(is_group(slot, grown)) by {
        assert forall|i: int, j: int|
            #![trigger grown[i], grown[j]]
            0 <= i < grown.len() && 0 <= j < grown.len() && grown[i].0 == grown[j].0 implies i == j by {
            if i < n && j < n {
                assert(group[i].0 == group[j].0);
            } else if i < n {
                assert(group[i].0 == entry.0);
            } else if j < n {
                assert(group[j].0 == entry.0);
            }
        }
        assert forall|i: int| 0 <= i < grown.len() implies (#[trigger] grown[i]).0.spec_slot() == slot by {
            if i < n {
                assert(grown[i] == group[i]);
            }
        }
    }
    assert(grown[n] == entry);
    lemma_place(slot, grown, n);
    if holds(group, key) {
        let i = place(group, key);
        assert(group[i].0 == key);
        assert(grown[i] == group[i]);
        lemma_place(slot, grown, i);
    }
    if holds(grown, key) && key != entry.0 {
        let i = place(grown, key);
        assert(grown[i].0 == key);
        assert(i < n);
        assert(group[i] == grown[i]);
    }
}

impl<K: MapKey, V> View for KeyMap<K, V> {
    type V = Map<K, V>;

    closed spec fn view(&self) -> Map<K, V> {
        Map::new(|key: K| held(self.groups@, key) is Some, |key: K| held(self.groups@, key)->Some_0)
    }
}

impl<K: MapKey, V> KeyMap<K, V> {
    pub(crate) closed spec fn wf(self) -> bool {
        forall|slot: u64| #[trigger] self.groups@.contains_key(slot) ==> is_group(slot, self.groups@[slot]@)
    }

    pub(crate) fn new() -> (map: KeyMap<K, V>)
        ensures
            map.wf(),
            map@ == Map::<K, V>::empty(),
    {
        let map = KeyMap { groups: HashMap::new() };
        assert(map@ =~= Map::<K, V>::empty());
        map
    }

    pub(crate) fn clear(&mut self)
        ensures
            final(self).wf(),
            final(self)@ == Map::<K, V>::empty(),
    {
        self.groups.clear();
        assert(self@ =~= Map::<K, V>::empty());
    }

    /// Where a group holds a key.
    fn find(group: &Vec<(K, V)>, key: &K) -> (place: Option<usize>)
        ensures
            match place {
                Some(i) => i < group@.len() && group@[i as int].0 == *key,
                None => !holds(group@, *key),
            },
    {
        let mut i: usize = 0;
        while i < group.len()
            invariant
                i <= group@.len(),
                forall|k: int| 0 <= k < i ==> (#[trigger] group@[k]).0 != *key,
            decreases group@.len() - i,
        {
            if group[i].0.is_key(key) {
                return Some(i);
            }
            i += 1;
        }
        None
    }

    pub(crate) fn get(&self, key: &K) -> (value: Option<&V>)
        requires
            self.wf(),
        ensures
            match value {
                Some(value) => self@.contains_key(*key) && *value == self@[*key],
                None => !self@.contains_key(*key),
            },
    {
        let slot: u64 = key.slot();
        match self.groups.get(&slot) {
            None => None,
            Some(group) => match Self::find(group, key) {
                None => None,
                Some(i) => {
                    proof {
                        lemma_place(slot, group@, i as int);
                    }
                    Some(&group[i].1)
                },
            },
        }
    }

    pub(crate) fn contains_key(&self, key: &K) -> (found: bool)
        requires
            self.wf(),
        ensures
            found == self@.contains_key(*key),
    {
        self.get(key).is_some()
    }

    pub(crate) fn remove(&mut self, key: &K) -> (value: Option<V>)
        requires
            old(self).wf(),
        ensures
            final(self).wf(),
            final(self)@ == old(self)@.remove(*key),
            match value {
                Some(value) => old(self)@.contains_key(*key) && value == old(self)@[*key],
                None => !old(self)@.contains_key(*key),
            },
    {
        let slot: u64 = key.slot();
        let ghost before = self.groups@;
        match self.groups.remove(&slot) {
            None => {
                proof {
                    assert(self.groups@ =~= before);
                    assert(self@ =~= old(self)@.remove(*key));
                }
                None
            },
            Some(group) => {
                let mut group = group;
                let ghost whole = group@;
                match Self::find(&group, key) {
                    None => {
                        self.groups.insert(slot, group);
                        proof {
                            assert(self.groups@ =~= before);
                            assert(self@ =~= old(self)@.remove(*key));
                        }
                        None
                    },
                    Some(i) => {
                        let (_, value) = group.remove(i);
                        self.groups.insert(slot, group);
                        proof {
                            let at = i as int;
                            lemma_place(slot, whole, at);
                            lemma_group_without(slot, whole, at, *key);
                            assert forall|q: K| #[trigger] self@.contains_key(q) == old(self)@.remove(*key).contains_key(
                                q,
                            ) by {
                                lemma_group_without(slot, whole, at, q);
                            }
                            assert forall|q: K| #[trigger] self@.contains_key(q) implies self@[q] == old(self)@[q] by {
                                lemma_group_without(slot, whole, at, q);
                            }
                            assert(self@ =~= old(self)@.remove(*key));
                            assert forall|s: u64| #[trigger] self.groups@.contains_key(s) implies is_group(
                                s,
                                self.groups@[s]@,
                            ) by {
                                if s != slot {
                                    assert(before.contains_key(s));
                                }
                            }
                        }
                        Some(value)
                    },
                }
            },
        }
    }

    pub(crate) fn insert(&mut self, key: K, value: V)
        requires
            old(self).wf(),
        ensures
            final(self).wf(),
            final(self)@ == old(self)@.insert(key, value),
    {
        self.remove(&key);
        let ghost removed = *self;
        let slot: u64 = key.slot();
        let ghost before = self.groups@;
        let mut group: Vec<(K, V)> = match self.groups.remove(&slot) {
            Some(group) => group,
            None => Vec::new(),
        };
        let ghost rest = group@;
        proof {
            assert(!removed@.contains_key(key));
            assert(!holds(rest, key));
            assert(is_group(slot, rest));
        }
        group.push((key, value));
        self.groups.insert(slot, group);
        proof {
            let entry = (key, value);
            lemma_group_with(slot, rest, entry, key);
            assert forall|q: K| #[trigger] self@.contains_key(q) == removed@.insert(key, value).contains_key(q) by {
                lemma_group_with(slot, rest, entry, q);
            }
            assert forall|q: K| #[trigger] self@.contains_key(q) implies self@[q] == removed@.insert(key, value)[q] by {
                lemma_group_with(slot, rest, entry, q);
            }
            assert(self@ =~= removed@.insert(key, value));
            assert(removed@.insert(key, value) =~= old(self)@.insert(key, value));
            assert forall|s: u64| #[trigger] self.groups@.contains_key(s) implies is_group(s, self.groups@[s]@) by {
                if s != slot {
                    assert(before.contains_key(s));
                }
            }
        }
    }
}

} // verus!
