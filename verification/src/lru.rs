//! A memory-capped cache of decoded objects.

use crate::key_map::KeyMap;
use crate::key_map::MapKey;
use crate::object::share;
use crate::object::EncodedObject;
use std::sync::Arc;
use vstd::prelude::*;

verus! {

/// Default approximate byte budget for the decoded-object cache.
pub const DEFAULT_OBJECT_CACHE_BYTES: usize = 100_663_296;

/// Default approximate byte budget for each per-pack delta-base cache.
pub const DEFAULT_DELTA_BASE_CACHE_BYTES: usize = 100_663_296;

/// What caching an object with a body of a length counts for.
pub open spec fn body_cost(len: nat) -> usize {
    if len + 64 > usize::MAX {
        usize::MAX
    } else {
        (len + 64) as usize
    }
}

/// What caching an object counts for.
pub open spec fn object_cost(object: Arc<EncodedObject>) -> usize {
    body_cost(object.body@.len())
}

/// Approximate heap cost of caching one object: its body plus a fixed allowance
/// for the key and the bookkeeping.
pub fn cached_object_cost(object: &EncodedObject) -> (cost: usize)
    ensures
        cost == body_cost(object.body@.len()),
{
    object.body.len().saturating_add(64)
}

struct LruEntry<K> {
    object: Arc<EncodedObject>,
    prev: Option<K>,
    next: Option<K>,
}

/// A memory-capped map from a key to a decoded [`EncodedObject`].
///
/// Eviction is by approximate byte budget, not object count. On access an entry
/// becomes the most recently used; on insert, least recently used entries are
/// dropped until the budget holds. A budget of zero makes the cache inert. The
/// entries form a doubly linked list in order of use, threaded through the map.
#[verifier::reject_recursive_types(K)]
pub struct LruCache<K: MapKey> {
    budget: usize,
    used: usize,
    map: KeyMap<K, LruEntry<K>>,
    head: Option<K>,
    tail: Option<K>,
    order: Ghost<Seq<K>>,
}

spec fn before<K>(order: Seq<K>, i: int) -> Option<K> {
    if i > 0 {
        Some(order[i - 1])
    } else {
        None
    }
}

spec fn behind<K>(order: Seq<K>, i: int) -> Option<K> {
    if i + 1 < order.len() {
        Some(order[i + 1])
    } else {
        None
    }
}

/// Whether `map` threads the list `order` through its entries.
spec fn threads<K>(map: Map<K, LruEntry<K>>, order: Seq<K>) -> bool {
    &&& order.no_duplicates()
    &&& forall|key: K| #[trigger] map.contains_key(key) <==> order.contains(key)
    &&& forall|i: int|
        #![trigger map[order[i]]]
        0 <= i < order.len() ==> map[order[i]].prev == before(order, i) && map[order[i]].next == behind(
            order,
            i,
        )
}

/// Whether `joined` is `map` without the entry at a position of the list, the
/// neighbours of which are linked to each other.
spec fn is_joined<K>(map: Map<K, LruEntry<K>>, joined: Map<K, LruEntry<K>>, order: Seq<K>, at: int) -> bool {
    &&& forall|key: K| #[trigger] joined.contains_key(key) <==> map.contains_key(key) && key != order[at]
    &&& forall|key: K| #[trigger]
        joined.contains_key(key) ==> {
            &&& joined[key].prev == if behind(order, at) == Some(key) {
                before(order, at)
            } else {
                map[key].prev
            }
            &&& joined[key].next == if before(order, at) == Some(key) {
                behind(order, at)
            } else {
                map[key].next
            }
        }
}

/// The keys of a list without one are those of the rest.
proof fn lemma_rest_contains<K>(order: Seq<K>, at: int, key: K)
    requires
        order.no_duplicates(),
        0 <= at < order.len(),
    ensures
        order.remove(at).contains(key) <==> order.contains(key) && key != order[at],
{
    let rest = order.remove(at);
    if rest.contains(key) {
        let i = choose|i: int| 0 <= i < rest.len() && rest[i] == key;
        if i < at {
            assert(order[i] == key);
        } else {
            assert(order[i + 1] == key);
        }
    }
    if order.contains(key) && key != order[at] {
        let i = choose|i: int| 0 <= i < order.len() && order[i] == key;
        if i < at {
            assert(rest[i] == key);
        } else {
            assert(rest[i - 1] == key);
        }
    }
}

/// The links of the entry at position `j` of the list once that at `at` is out.
proof fn lemma_link<K>(map: Map<K, LruEntry<K>>, joined: Map<K, LruEntry<K>>, order: Seq<K>, at: int, j: int)
    requires
        threads(map, order),
        is_joined(map, joined, order, at),
        0 <= at < order.len(),
        0 <= j < order.len(),
        j != at,
    ensures
        joined[order[j]].prev == if j == at + 1 {
            before(order, at)
        } else {
            before(order, j)
        },
        joined[order[j]].next == if j == at - 1 {
            behind(order, at)
        } else {
            behind(order, j)
        },
{
    let key = order[j];
    assert(order.contains(key));
    assert(key != order[at]);
    assert(joined.contains_key(key));
    assert((behind(order, at) == Some(key)) == (j == at + 1)) by {
        if at + 1 < order.len() && j != at + 1 {
            assert(order[at + 1] != order[j]);
        }
    }
    assert((before(order, at) == Some(key)) == (j == at - 1)) by {
        if at > 0 && j != at - 1 {
            assert(order[at - 1] != order[j]);
        }
    }
}

/// An entry whose neighbours were joined is out of the list.
proof fn lemma_unthreaded<K>(
    map: Map<K, LruEntry<K>>,
    joined: Map<K, LruEntry<K>>,
    order: Seq<K>,
    at: int,
)
    requires
        threads(map, order),
        0 <= at < order.len(),
        is_joined(map, joined, order, at),
    ensures
        threads(joined, order.remove(at)),
{
    let rest = order.remove(at);
    assert forall|i: int, j: int| 0 <= i < rest.len() && 0 <= j < rest.len() && i != j implies rest[i] != rest[j] by {
        let left = if i < at {
            i
        } else {
            i + 1
        };
        let right = if j < at {
            j
        } else {
            j + 1
        };
        assert(rest[i] == order[left] && rest[j] == order[right]);
        assert(order[left] != order[right]);
    }
    assert forall|k: K| #[trigger] joined.contains_key(k) <==> rest.contains(k) by {
        lemma_rest_contains(order, at, k);
        assert(map.contains_key(k) <==> order.contains(k));
    }
    assert forall|i: int|
        #![trigger joined[rest[i]]]
        0 <= i < rest.len() implies joined[rest[i]].prev == before(rest, i)
        && joined[rest[i]].next == behind(rest, i) by {
        let j = if i < at {
            i
        } else {
            i + 1
        };
        assert(rest[i] == order[j]);
        lemma_link(map, joined, order, at, j);
        if i > 0 {
            assert(rest[i - 1] == if i - 1 < at {
                order[i - 1]
            } else {
                order[i]
            });
        }
        if i + 1 < rest.len() {
            assert(rest[i + 1] == if i + 1 < at {
                order[i + 1]
            } else {
                order[i + 2]
            });
        }
    }
}

/// Entries of a cache, the least recently used first.
pub type Entries<K> = Seq<(K, Arc<EncodedObject>)>;

/// The position of a key among entries.
pub open spec fn position<K>(entries: Entries<K>, key: K) -> int {
    choose|i: int| 0 <= i < entries.len() && (#[trigger] entries[i]).0 == key
}

pub open spec fn has_key<K>(entries: Entries<K>, key: K) -> bool {
    exists|i: int| 0 <= i < entries.len() && (#[trigger] entries[i]).0 == key
}

/// `entries` without the one of a key that they have.
pub open spec fn without<K>(entries: Entries<K>, key: K) -> Entries<K> {
    entries.remove(position(entries, key))
}

pub open spec fn saturating_minus(a: usize, b: usize) -> usize {
    if a >= b {
        (a - b) as usize
    } else {
        0
    }
}

pub open spec fn saturating_plus(a: usize, b: usize) -> usize {
    if a + b > usize::MAX {
        usize::MAX
    } else {
        (a + b) as usize
    }
}

/// Entries and what they count for, after least recently used ones were dropped
/// until the budget holds.
pub open spec fn evicted<K>(entries: Entries<K>, used: usize, budget: usize) -> (Entries<K>, usize)
    decreases entries.len(),
{
    if used > budget && entries.len() > 0 {
        evicted(
            entries.drop_first(),
            saturating_minus(used, object_cost(entries[0].1)),
            budget,
        )
    } else {
        (entries, used)
    }
}

/// Entries and what they count for, without a key.
pub open spec fn removed<K>(entries: Entries<K>, used: usize, key: K) -> (Entries<K>, usize) {
    if has_key(entries, key) {
        (
            without(entries, key),
            saturating_minus(used, object_cost(entries[position(entries, key)].1)),
        )
    } else {
        (entries, used)
    }
}

/// Entries and what they count for, after an object was put under a key. A
/// cache with budget zero stays empty; an object that exceeds the budget is not
/// cached, and an older one under the same key is dropped.
pub open spec fn after_put<K>(
    entries: Entries<K>,
    used: usize,
    budget: usize,
    key: K,
    object: Arc<EncodedObject>,
) -> (Entries<K>, usize) {
    if budget == 0 {
        (entries, used)
    } else if object_cost(object) > budget {
        removed(entries, used, key)
    } else {
        let (rest, left) = removed(entries, used, key);
        evicted(rest.push((key, object)), saturating_plus(left, object_cost(object)), budget)
    }
}

/// What the entries count for together.
pub open spec fn total_cost<K>(entries: Entries<K>) -> nat
    decreases entries.len(),
{
    if entries.len() == 0 {
        0
    } else {
        object_cost(entries[0].1) as nat + total_cost(entries.drop_first())
    }
}

/// Whether entries are counted exactly and are within their budget. (The budget
/// is one that two objects within it can be counted under.)
pub open spec fn is_counted<K>(entries: Entries<K>, used: usize, budget: usize) -> bool {
    budget <= usize::MAX / 2 ==> used == total_cost(entries) && used <= budget
}

impl<K: MapKey> LruCache<K> {
    /// Whether the map threads the list of entries.
    spec fn is_linked(self) -> bool {
        &&& self.map.wf()
        &&& threads(self.map@, self.order@)
        &&& self.head == if self.order@.len() == 0 {
            None
        } else {
            Some(self.order@[0])
        }
        &&& self.tail == if self.order@.len() == 0 {
            None
        } else {
            Some(self.order@.last())
        }
    }

    /// The entries are linked, each key once, and are counted.
    pub closed spec fn wf(self) -> bool {
        &&& self.is_linked()
        &&& is_counted(self.entries(), self.used, self.budget)
    }

    /// The cached entries, the least recently used first.
    pub closed spec fn entries(self) -> Entries<K> {
        self.order@.map_values(|key: K| (key, self.map@[key].object))
    }

    pub closed spec fn spec_budget(self) -> usize {
        self.budget
    }

    /// What the entries are counted for.
    pub closed spec fn spec_used(self) -> usize {
        self.used
    }

    pub fn new(budget: usize) -> (cache: LruCache<K>)
        ensures
            cache.wf(),
            cache.entries() == Seq::<(K, Arc<EncodedObject>)>::empty(),
            cache.spec_used() == 0,
            cache.spec_budget() == budget,
    {
        let cache = LruCache {
            budget,
            used: 0,
            map: KeyMap::new(),
            head: None,
            tail: None,
            order: Ghost(Seq::empty()),
        };
        assert(cache.entries() =~= Seq::<(K, Arc<EncodedObject>)>::empty());
        cache
    }

    proof fn lemma_has_key(self, key: K)
        requires
            self.is_linked(),
        ensures
            has_key(self.entries(), key) == self.map@.contains_key(key),
            self.map@.contains_key(key) ==> {
                let i = position(self.entries(), key);
                &&& 0 <= i < self.order@.len()
                &&& self.order@[i] == key
                &&& self.entries()[i] == (key, self.map@[key].object)
            },
    {
        let entries = self.entries();
        if self.order@.contains(key) {
            let i = choose|i: int| 0 <= i < self.order@.len() && self.order@[i] == key;
            assert(entries[i].0 == key);
            let j = position(entries, key);
            assert(entries[j].0 == key && 0 <= j < entries.len());
        }
        if has_key(entries, key) {
            let i = choose|i: int| 0 <= i < entries.len() && (#[trigger] entries[i]).0 == key;
            assert(self.order@[i] == key);
        }
    }

    /// A cache holds each key once.
    pub proof fn law_keys_are_distinct(self)
        requires
            self.wf(),
        ensures
            forall|i: int, j: int|
                #![trigger self.entries()[i], self.entries()[j]]
                0 <= i < j < self.entries().len() ==> self.entries()[i].0 != self.entries()[j].0,
    {
    }

    /// A cache counts its entries exactly and holds no more than its budget.
    pub proof fn law_cache_is_within_budget(self)
        requires
            self.wf(),
            self.spec_budget() <= usize::MAX / 2,
        ensures
            self.spec_used() == total_cost(self.entries()),
            total_cost(self.entries()) <= self.spec_budget(),
    {
    }

    /// Takes an entry out, and its cost off the count.
    fn take_out(&mut self, key: &K)
        requires
            old(self).is_linked(),
        ensures
            final(self).is_linked(),
            final(self).budget == old(self).budget,
            (final(self).entries(), final(self).used) == removed(old(self).entries(), old(self).used, *key),
    {
        match self.detach(key) {
            None => {},
            Some(object) => {
                self.used = self.used.saturating_sub(cached_object_cost(&object));
            },
        }
    }


    proof fn lemma_position(self, key: K)
        requires
            self.is_linked(),
        ensures
            has_key(self.entries(), key) ==> 0 <= position(self.entries(), key) < self.entries().len(),
    {
        self.lemma_has_key(key);
    }

    /// Sets the links of an entry.
    fn relink(&mut self, key: K, prev: Option<K>, next: Option<K>)
        requires
            old(self).map.wf(),
            old(self).map@.contains_key(key),
        ensures
            final(self).map.wf(),
            final(self).map@ == old(self).map@.insert(
                key,
                LruEntry { object: old(self).map@[key].object, prev, next },
            ),
            final(self).budget == old(self).budget,
            final(self).used == old(self).used,
            final(self).head == old(self).head,
            final(self).tail == old(self).tail,
            final(self).order == old(self).order,
    {
        match self.map.remove(&key) {
            Some(entry) => {
                self.map.insert(key, LruEntry { object: entry.object, prev, next });
                assert(self.map@ =~= old(self).map@.insert(
                    key,
                    LruEntry { object: old(self).map@[key].object, prev, next },
                ));
            },
            None => {
                assert(false);
            },
        }
    }

    /// Takes an entry out of the list and the map.
    fn detach(&mut self, key: &K) -> (object: Option<Arc<EncodedObject>>)
        requires
            old(self).is_linked(),
        ensures
            final(self).is_linked(),
            final(self).budget == old(self).budget,
            final(self).used == old(self).used,
            object is Some <==> has_key(old(self).entries(), *key),
            match object {
                Some(object) => object == old(self).entries()[position(old(self).entries(), *key)].1
                    && final(self).entries() == without(old(self).entries(), *key)
                    && !final(self).map@.contains_key(*key),
                None => *final(self) == *old(self),
            },
    {
        proof {
            self.lemma_has_key(*key);
        }
        let ghost cache = *self;
        let ghost order = self.order@;
        let ghost at = position(self.entries(), *key);
        if !self.map.contains_key(key) {
            return None;
        }
        match self.map.remove(key) {
            None => {
                assert(false);
                None
            },
            Some(entry) => {
                let LruEntry { object, prev, next } = entry;
                assert(order[at] == *key);
                assert(prev == before(order, at) && next == behind(order, at));
                let ghost rest = order.remove(at);
                self.order = Ghost(rest);
                match prev {
                    Some(prev_key) => {
                        assert(order[at - 1] == prev_key);
                        assert(order.contains(prev_key));
                        assert(prev_key != *key);
                        let prev_prev = match self.map.get(&prev_key) {
                            Some(prev_entry) => prev_entry.prev,
                            None => {
                                assert(false);
                                None
                            },
                        };
                        self.relink(prev_key, prev_prev, next);
                    },
                    None => {
                        self.head = next;
                    },
                }
                match next {
                    Some(next_key) => {
                        assert(order[at + 1] == next_key);
                        assert(order.contains(next_key));
                        assert(next_key != *key);
                        let next_next = match self.map.get(&next_key) {
                            Some(next_entry) => next_entry.next,
                            None => {
                                assert(false);
                                None
                            },
                        };
                        self.relink(next_key, prev, next_next);
                    },
                    None => {
                        self.tail = prev;
                    },
                }
                proof {
                    lemma_unthreaded(cache.map@, self.map@, order, at);
                    if rest.len() > 0 {
                        if at == 0 {
                            assert(rest[0] == order[1]);
                        } else {
                            assert(rest[0] == order[0]);
                        }
                        if at == order.len() - 1 {
                            assert(rest.last() == order[at - 1]);
                        } else {
                            assert(rest.last() == order.last());
                        }
                    }
                    let goal = without(cache.entries(), *key);
                    assert(self.entries().len() == goal.len());
                    assert forall|i: int| 0 <= i < goal.len() implies self.entries()[i] == goal[i] by {
                        let k = rest[i];
                        if i < at {
                            assert(goal[i] == cache.entries()[i]);
                            assert(order[i] == k);
                        } else {
                            assert(goal[i] == cache.entries()[i + 1]);
                            assert(order[i + 1] == k);
                        }
                        assert(self.map@[k].object == cache.map@[k].object);
                    }
                    assert(self.entries() =~= goal);
                }
                Some(object)
            },
        }
    }

    /// Adds an entry as the most recently used.
    fn attach_back(&mut self, key: K, object: Arc<EncodedObject>)
        requires
            old(self).is_linked(),
            !old(self).map@.contains_key(key),
        ensures
            final(self).is_linked(),
            final(self).budget == old(self).budget,
            final(self).used == old(self).used,
            final(self).entries() == old(self).entries().push((key, object)),
    {
        let ghost cache = *self;
        let ghost order = self.order@;
        let previous_tail = self.tail;
        match previous_tail {
            Some(tail_key) => {
                assert(order[order.len() - 1] == tail_key);
                assert(order.contains(tail_key));
                let tail_prev = match self.map.get(&tail_key) {
                    Some(entry) => entry.prev,
                    None => {
                        assert(false);
                        None
                    },
                };
                self.relink(tail_key, tail_prev, Some(key));
                self.map.insert(key, LruEntry { object, prev: Some(tail_key), next: None });
            },
            None => {
                self.head = Some(key);
                self.map.insert(key, LruEntry { object, prev: None, next: None });
            },
        }
        self.tail = Some(key);
        self.order = Ghost(order.push(key));
        proof {
            let grown = order.push(key);
            assert(!order.contains(key));
            assert(grown.no_duplicates());
            assert forall|k: K| #[trigger] self.map@.contains_key(k) <==> grown.contains(k) by {
                if order.contains(k) {
                    let i = choose|i: int| 0 <= i < order.len() && order[i] == k;
                    assert(grown[i] == k);
                }
                if grown.contains(k) {
                    let i = choose|i: int| 0 <= i < grown.len() && grown[i] == k;
                    if i < order.len() {
                        assert(order[i] == k);
                    }
                }
                assert(grown[order.len() as int] == key);
            }
            assert forall|i: int|
                #![trigger grown[i]]
                0 <= i < grown.len() implies self.map@[grown[i]].prev == before(grown, i)
                && self.map@[grown[i]].next == behind(grown, i) by {
                if i < order.len() {
                    assert(grown[i] == order[i]);
                    assert(cache.map@[order[i]].prev == before(order, i));
                    assert(cache.map@[order[i]].next == behind(order, i));
                    if i > 0 {
                        assert(grown[i - 1] == order[i - 1]);
                    }
                    if i + 1 < order.len() {
                        assert(grown[i + 1] == order[i + 1]);
                    }
                } else if order.len() > 0 {
                    assert(grown[i - 1] == order.last());
                }
            }
            if order.len() > 0 {
                assert(grown[0] == order[0]);
            }
            assert forall|i: int| 0 <= i < order.len() implies self.entries()[i] == cache.entries()[i] by {
                assert(grown[i] == order[i]);
                assert(self.map@[order[i]].object == cache.map@[order[i]].object);
            }
            assert(self.entries() =~= cache.entries().push((key, object)));
        }
    }

    /// The object under a key, which becomes the most recently used.
    pub fn get(&mut self, key: &K) -> (object: Option<Arc<EncodedObject>>)
        requires
            old(self).wf(),
        ensures
            final(self).wf(),
            final(self).spec_budget() == old(self).spec_budget(),
            final(self).spec_used() == old(self).spec_used(),
            object is Some <==> has_key(old(self).entries(), *key),
            match object {
                Some(object) => object == old(self).entries()[position(old(self).entries(), *key)].1
                    && final(self).entries() == without(old(self).entries(), *key).push((*key, object)),
                None => final(self).entries() == old(self).entries(),
            },
    {
        proof {
            self.lemma_position(*key);
        }
        match self.detach(key) {
            None => None,
            Some(object) => {
                let handle = share(&object);
                let ghost rest = self.entries();
                self.attach_back(*key, object);
                proof {
                    lemma_total_without(old(self).entries(), position(old(self).entries(), *key));
                    lemma_total_push(rest, (*key, object));
                }
                Some(handle)
            },
        }
    }

    /// Makes a key the most recently used.
    pub fn touch(&mut self, key: &K)
        requires
            old(self).wf(),
        ensures
            final(self).wf(),
            final(self).spec_budget() == old(self).spec_budget(),
            final(self).spec_used() == old(self).spec_used(),
            final(self).entries() == if has_key(old(self).entries(), *key) {
                without(old(self).entries(), *key).push(
                    (*key, old(self).entries()[position(old(self).entries(), *key)].1),
                )
            } else {
                old(self).entries()
            },
    {
        proof {
            self.lemma_position(*key);
        }
        match self.detach(key) {
            None => {},
            Some(object) => {
                let ghost rest = self.entries();
                self.attach_back(*key, object);
                proof {
                    lemma_total_without(old(self).entries(), position(old(self).entries(), *key));
                    lemma_total_push(rest, (*key, object));
                }
            },
        }
    }

    /// Drops a key, releasing its budget.
    pub fn remove(&mut self, key: &K)
        requires
            old(self).wf(),
        ensures
            final(self).wf(),
            final(self).spec_budget() == old(self).spec_budget(),
            (final(self).entries(), final(self).spec_used()) == removed(
                old(self).entries(),
                old(self).spec_used(),
                *key,
            ),
    {
        proof {
            self.lemma_position(*key);
            if has_key(self.entries(), *key) {
                lemma_total_without(self.entries(), position(self.entries(), *key));
            }
        }
        self.take_out(key);
    }

    /// Drops everything.
    pub fn clear(&mut self)
        requires
            old(self).wf(),
        ensures
            final(self).wf(),
            final(self).spec_budget() == old(self).spec_budget(),
            final(self).entries() == Seq::<(K, Arc<EncodedObject>)>::empty(),
            final(self).spec_used() == 0,
    {
        self.map.clear();
        self.head = None;
        self.tail = None;
        self.used = 0;
        self.order = Ghost(Seq::empty());
        assert(self.entries() =~= Seq::<(K, Arc<EncodedObject>)>::empty());
    }

    /// Puts an object under a key.
    pub fn put(&mut self, key: K, object: Arc<EncodedObject>)
        requires
            old(self).wf(),
        ensures
            final(self).wf(),
            final(self).spec_budget() == old(self).spec_budget(),
            (final(self).entries(), final(self).spec_used()) == after_put(
                old(self).entries(),
                old(self).spec_used(),
                old(self).spec_budget(),
                key,
                object,
            ),
    {
        if self.budget == 0 {
            return;
        }
        let cost: usize = cached_object_cost(&object);
        self.remove(&key);
        if cost > self.budget {
            return;
        }
        proof {
            self.lemma_has_key(key);
            let before = old(self).entries();
            if has_key(before, key) {
                old(self).lemma_has_key(key);
                let at = position(before, key);
                if has_key(self.entries(), key) {
                    let i = choose|i: int|
                        0 <= i < self.entries().len() && (#[trigger] self.entries()[i]).0 == key;
                    if i < at {
                        assert(before[i].0 == key);
                        assert(old(self).order@[i] == key && old(self).order@[at] == key);
                    } else {
                        assert(before[i + 1].0 == key);
                        assert(old(self).order@[i + 1] == key && old(self).order@[at] == key);
                    }
                }
            }
        }
        let ghost rest = self.entries();
        let ghost left = self.used;
        self.used = self.used.saturating_add(cost);
        let ghost grown = self.entries().push((key, object));
        self.attach_back(key, object);
        let ghost start = self.used;
        while self.used > self.budget && self.head.is_some()
            invariant
                self.is_linked(),
                self.budget == old(self).budget,
                evicted(self.entries(), self.used, self.budget) == evicted(grown, start, self.budget),
            decreases self.entries().len(),
        {
            let ghost entries = self.entries();
            match self.head {
                Some(oldest) => {
                    proof {
                        self.lemma_has_key(oldest);
                        assert(self.order@[0] == oldest);
                        assert(self.order@.contains(oldest));
                        assert(position(entries, oldest) == 0) by {
                            let i = position(entries, oldest);
                            assert(self.order@[i] == oldest);
                        }
                        assert(without(entries, oldest) =~= entries.drop_first());
                    }
                    self.take_out(&oldest);
                },
                None => {},
            }
        }
        assert(self.entries().len() == self.order@.len());
        proof {
            if self.budget <= usize::MAX / 2 {
                lemma_total_push(rest, (key, object));
                assert(start == left + cost);
                lemma_evicted_fits(grown, start, self.budget);
            }
        }
    }
}

/// Removing a key takes its cost, and nothing else, off the total.
proof fn lemma_total_without<K>(entries: Entries<K>, i: int)
    requires
        0 <= i < entries.len(),
    ensures
        total_cost(entries) == total_cost(entries.remove(i)) + object_cost(entries[i].1),
    decreases entries.len(),
{
    if i == 0 {
        assert(entries.remove(0) =~= entries.drop_first());
    } else {
        let rest = entries.drop_first();
        lemma_total_without(rest, i - 1);
        assert(entries.remove(i).drop_first() =~= rest.remove(i - 1));
        assert(entries.remove(i)[0] == entries[0]);
    }
}

proof fn lemma_total_push<K>(entries: Entries<K>, entry: (K, Arc<EncodedObject>))
    ensures
        total_cost(entries.push(entry)) == total_cost(entries) + object_cost(entry.1),
    decreases entries.len(),
{
    if entries.len() == 0 {
        assert(entries.push(entry).drop_first() =~= Seq::empty());
        assert(total_cost(entries.push(entry).drop_first()) == 0);
    } else {
        lemma_total_push(entries.drop_first(), entry);
        assert(entries.push(entry).drop_first() =~= entries.drop_first().push(entry));
    }
}

/// Whether `rest` is `entries` without the first `n`, and with one more the
/// entries would be over the budget.
pub open spec fn are_first_dropped<K>(entries: Entries<K>, rest: Entries<K>, budget: usize, n: int) -> bool {
    &&& 0 <= n <= entries.len()
    &&& rest == entries.skip(n)
    &&& n > 0 ==> total_cost(entries.skip(n - 1)) > budget
}

/// Whether `rest` is `entries` without the least recently used ones, and no more
/// of them than make the rest fit.
pub open spec fn are_dropped<K>(entries: Entries<K>, rest: Entries<K>, budget: usize) -> bool {
    exists|n: int| #[trigger] are_first_dropped(entries, rest, budget, n)
}

proof fn lemma_evicted_fits<K>(entries: Entries<K>, used: usize, budget: usize)
    requires
        used == total_cost(entries),
    ensures
        ({
            let (rest, left) = evicted(entries, used, budget);
            &&& left == total_cost(rest)
            &&& left <= budget
            &&& are_dropped(entries, rest, budget)
        }),
    decreases entries.len(),
{
    if used > budget && entries.len() > 0 {
        lemma_evicted_fits(
            entries.drop_first(),
            saturating_minus(used, object_cost(entries[0].1)),
            budget,
        );
        let (rest, left) = evicted(entries, used, budget);
        let shorter = entries.drop_first();
        let n = choose|n: int| #[trigger] are_first_dropped(shorter, rest, budget, n);
        assert(shorter.skip(n) =~= entries.skip(n + 1));
        if n > 0 {
            assert(shorter.skip(n - 1) =~= entries.skip(n));
        } else {
            assert(entries.skip(0) =~= entries);
        }
        assert(are_first_dropped(entries, rest, budget, n + 1));
    } else {
        assert(entries.skip(0) =~= entries);
        assert(are_first_dropped(entries, entries, budget, 0));
    }
}

/// A cache that counts its entries exactly and is within its budget stays so
/// whatever is put into it. What is dropped are the least recently used
/// entries. (The budget is one that two objects within it can be counted
/// under.)
pub proof fn law_put_keeps_budget<K>(
    entries: Entries<K>,
    used: usize,
    budget: usize,
    key: K,
    object: Arc<EncodedObject>,
)
    requires
        used == total_cost(entries),
        used <= budget,
        budget <= usize::MAX / 2,
    ensures
        ({
            let (rest, left) = after_put(entries, used, budget, key, object);
            &&& left == total_cost(rest)
            &&& left <= budget
        }),
        0 < budget && object_cost(object) <= budget ==> are_dropped(
            removed(entries, used, key).0.push((key, object)),
            after_put(entries, used, budget, key, object).0,
            budget,
        ),
{
    if has_key(entries, key) {
        lemma_total_without(entries, position(entries, key));
    }
    let (rest, left) = removed(entries, used, key);
    if budget > 0 && object_cost(object) <= budget {
        lemma_total_push(rest, (key, object));
        lemma_evicted_fits(
            rest.push((key, object)),
            saturating_plus(left, object_cost(object)),
            budget,
        );
    }
}

/// An object that fits the budget is found right after it was put.
pub proof fn law_put_is_found<K>(
    entries: Entries<K>,
    used: usize,
    budget: usize,
    key: K,
    object: Arc<EncodedObject>,
)
    requires
        used == total_cost(entries),
        used <= budget,
        budget <= usize::MAX / 2,
        0 < budget,
        object_cost(object) <= budget,
    ensures
        ({
            let rest = after_put(entries, used, budget, key, object).0;
            rest.len() > 0 && rest.last() == (key, object)
        }),
{
    if has_key(entries, key) {
        lemma_total_without(entries, position(entries, key));
    }
    let (rest, left) = removed(entries, used, key);
    lemma_total_push(rest, (key, object));
    lemma_evicted_keeps_last(
        rest.push((key, object)),
        saturating_plus(left, object_cost(object)),
        budget,
    );
}

proof fn lemma_evicted_keeps_last<K>(entries: Entries<K>, used: usize, budget: usize)
    requires
        used == total_cost(entries),
        entries.len() > 0,
        object_cost(entries.last().1) <= budget,
    ensures
        evicted(entries, used, budget).0.len() > 0,
        evicted(entries, used, budget).0.last() == entries.last(),
    decreases entries.len(),
{
    if used > budget {
        if entries.len() == 1 {
            assert(entries.drop_first() =~= Seq::empty());
            assert(total_cost(entries.drop_first()) == 0);
        } else {
            assert(entries.drop_first().last() == entries.last());
            lemma_evicted_keeps_last(
                entries.drop_first(),
                saturating_minus(used, object_cost(entries[0].1)),
                budget,
            );
        }
    }
}

/// What is put into a cache, whatever the cache has been through: nothing where
/// its budget is zero; nothing, and no older object under the key, where the
/// object exceeds the budget; otherwise the object, as the most recently used,
/// and the entries that are dropped are the least recently used ones and as few
/// as make the rest fit.
pub proof fn law_put<K: MapKey>(cache: LruCache<K>, key: K, object: Arc<EncodedObject>)
    requires
        cache.wf(),
        cache.spec_budget() <= usize::MAX / 2,
    ensures
        ({
            let budget = cache.spec_budget();
            let others = removed(cache.entries(), cache.spec_used(), key).0;
            let (after, left) = after_put(cache.entries(), cache.spec_used(), budget, key, object);
            &&& left == total_cost(after)
            &&& total_cost(after) <= budget
            &&& !has_key(others, key)
            &&& budget == 0 ==> after.len() == 0
            &&& object_cost(object) > budget ==> after == others
            &&& budget > 0 && object_cost(object) <= budget ==> {
                &&& has_key(after, key)
                &&& after[position(after, key)].1 == object
                &&& after.last() == (key, object)
                &&& are_dropped(others.push((key, object)), after, budget)
            }
        }),
{
    let entries = cache.entries();
    let used = cache.spec_used();
    let budget = cache.spec_budget();
    cache.law_cache_is_within_budget();
    cache.law_keys_are_distinct();
    law_put_keeps_budget(entries, used, budget, key, object);
    let others = removed(entries, used, key).0;
    let (after, left) = after_put(entries, used, budget, key, object);
    assert(!has_key(others, key)) by {
        if has_key(others, key) {
            let i = position(others, key);
            assert(others[i].0 == key && 0 <= i < others.len());
            if has_key(entries, key) {
                let at = position(entries, key);
                assert(entries[at].0 == key && 0 <= at < entries.len());
                if i < at {
                    assert(entries[i].0 == key);
                } else {
                    assert(entries[i + 1].0 == key);
                }
            }
        }
    }
    if budget == 0 {
        if entries.len() > 0 {
            assert(object_cost(entries[0].1) >= 64);
        }
        if object_cost(object) > budget {
            assert(!has_key(entries, key)) by {
                if has_key(entries, key) {
                    assert(entries.len() > 0);
                }
            }
        }
    } else if object_cost(object) <= budget {
        law_put_is_found(entries, used, budget, key, object);
        let n = choose|n: int| #[trigger] are_first_dropped(others.push((key, object)), after, budget, n);
        let last = after.len() - 1;
        assert(after[last].0 == key);
        let i = position(after, key);
        assert(after[i].0 == key && 0 <= i < after.len());
        if i < last {
            assert(after[i] == others.push((key, object))[i + n]);
            assert(others[i + n].0 == key);
        }
    }
}

} // verus!
