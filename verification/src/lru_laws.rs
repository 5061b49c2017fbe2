//! What a cache keeps, entry by entry.

use crate::lru::body_cost;
use crate::lru::has_key;
use crate::lru::object_cost;
use crate::lru::position;
use crate::lru::removed;
use crate::lru::total_cost;
use crate::lru::without;
use crate::lru::Entries;
use crate::object::EncodedObject;
use std::sync::Arc;
use vstd::prelude::*;

verus! {

/// Taking an entry out of a cache leaves every other where it stands.
pub proof fn law_taking_out_leaves_the_others<K>(entries: Entries<K>, key: K, at: int)
    requires
        0 <= at < entries.len(),
        entries[at].0 == key,
        forall|i: int, j: int|
            #![trigger entries[i], entries[j]]
            0 <= i < j < entries.len() ==> entries[i].0 != entries[j].0,
    ensures
        without(entries, key) == entries.take(at) + entries.skip(at + 1),
        !has_key(without(entries, key), key),
{
    let place = position(entries, key);
    assert(0 <= place < entries.len() && entries[place].0 == key);
    assert(place == at) by {
        if place < at {
            assert(entries[place].0 != entries[at].0);
        } else if at < place {
            assert(entries[at].0 != entries[place].0);
        }
    }
    let rest = without(entries, key);
    assert(rest =~= entries.take(at) + entries.skip(at + 1));
    if has_key(rest, key) {
        let i = choose|i: int| 0 <= i < rest.len() && (#[trigger] rest[i]).0 == key;
        if i < at {
            assert(rest[i] == entries[i]);
            assert(entries[i].0 != entries[at].0);
        } else {
            assert(rest[i] == entries[i + 1]);
            assert(entries[at].0 != entries[i + 1].0);
        }
    }
}

/// Removing a key takes out its entry and what it took up, and where there is
/// none changes nothing.
pub proof fn law_removal_takes_one_entry<K>(entries: Entries<K>, used: usize, key: K)
    requires
        forall|i: int, j: int|
            #![trigger entries[i], entries[j]]
            0 <= i < j < entries.len() ==> entries[i].0 != entries[j].0,
    ensures
        (forall|i: int| 0 <= i < entries.len() ==> (#[trigger] entries[i]).0 != key) ==> removed(entries, used, key) == (
            entries,
            used,
        ),
        forall|at: int|
            0 <= at < entries.len() && (#[trigger] entries[at]).0 == key ==> removed(entries, used, key).0
                == entries.take(at) + entries.skip(at + 1) && (used >= object_cost(entries[at].1) ==> removed(
                entries,
                used,
                key,
            ).1 == used - object_cost(entries[at].1)),
{
    assert forall|at: int| 0 <= at < entries.len() && (#[trigger] entries[at]).0 == key implies removed(
        entries,
        used,
        key,
    ).0 == entries.take(at) + entries.skip(at + 1) && (used >= object_cost(entries[at].1) ==> removed(
        entries,
        used,
        key,
    ).1 == used - object_cost(entries[at].1)) by {
        assert(has_key(entries, key));
        law_taking_out_leaves_the_others(entries, key, at);
        let place = position(entries, key);
        assert(0 <= place < entries.len() && entries[place].0 == key);
        if place < at {
            assert(entries[place].0 != entries[at].0);
        } else if at < place {
            assert(entries[at].0 != entries[place].0);
        }
    }
}

/// What a cache takes up is what its entries do: each its bytes and sixty-four
/// more, as far as that can be counted.
pub proof fn law_cost_is_that_of_the_bodies<K>(entries: Entries<K>, entry: (K, Arc<EncodedObject>))
    ensures
        total_cost(Seq::<(K, Arc<EncodedObject>)>::empty()) == 0,
        total_cost(seq![entry] + entries) == total_cost(entries) + object_cost(entry.1),
        entry.1.body@.len() + 64 <= usize::MAX ==> object_cost(entry.1) == entry.1.body@.len() + 64,
        entry.1.body@.len() + 64 > usize::MAX ==> object_cost(entry.1) == usize::MAX,
{
    assert((seq![entry] + entries).drop_first() =~= entries);
    assert(object_cost(entry.1) == body_cost(entry.1.body@.len()));
}

} // verus!
