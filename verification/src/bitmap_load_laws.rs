//! What a loaded bitmap marks, in terms of the stored words.

use crate::bitmap_load::bitmap_search;
use crate::bitmap_load::chain_bit_order;
use crate::bitmap_load::commit_word_map;
use crate::bitmap_load::commits_of;
use crate::bitmap_load::offset_order;
use crate::bitmap_load::pack_bit_order;
use crate::bitmap_load::resolved_words;
use crate::bitmap_load::BitmapEntryData;
use crate::bitmap_load::BitmapProbe;
use crate::bitmap_load::BitmapSearch;
use crate::bitmap_load::ProbeOutcome;
use crate::bitset::bit;
use crate::bitset::lemma_xor_bit;
use crate::bitset::resized;
use crate::error::GitError;
use crate::lineage::first_parent;
use crate::lineage::lineages;
use crate::midx::MultiPackIndexData;
use crate::midx_layer::known_types;
use crate::object::ObjectContent;
use crate::object::ObjectReader;
use crate::object::ObjectType;
use crate::object_id::ObjectId;
use crate::order::is_order;
use crate::order::law_stable_sort;
use crate::order::stable_sort;
use crate::pack_file::PackIndexEntry;
use crate::walk::lemma_unseen_shrinks;
use crate::walk::unseen;
use vstd::prelude::*;

verus! {

/// Whether `bitmap` marks what entry `i` stands for: the stored words mark the
/// bits in which it differs from the bitmap that the entry is combined with, and
/// where there is none the bits that it has.
pub open spec fn stores_bitmap(entries: Seq<BitmapEntryData>, bitmaps: Seq<Seq<u64>>, count: nat, i: int) -> bool {
    &&& entries[i].words is Ok
    &&& entries[i].xor_offset <= i
    &&& bitmaps[i].len() == count
    &&& forall|p: int|
        0 <= p < 64 * count ==> #[trigger] bit(resized(entries[i].words->Ok_0@, count), p) == if entries[i].xor_offset
            == 0 {
            bit(bitmaps[i], p)
        } else {
            bit(bitmaps[i], p) != bit(bitmaps[i - entries[i].xor_offset], p)
        }
}

proof fn lemma_resolved_len(entries: Seq<BitmapEntryData>, count: nat, i: int)
    requires
        0 <= i < entries.len(),
    ensures
        resolved_words(entries, count, i).len() == count,
{
}

/// Bitmaps that are stored as differences from others are loaded as what they
/// were.
pub proof fn law_stored_bitmaps_are_restored(
    entries: Seq<BitmapEntryData>,
    bitmaps: Seq<Seq<u64>>,
    count: nat,
    i: int,
    p: int,
)
    requires
        bitmaps.len() == entries.len(),
        forall|k: int| 0 <= k < entries.len() ==> #[trigger] stores_bitmap(entries, bitmaps, count, k),
        0 <= i < entries.len(),
        0 <= p < 64 * count,
    ensures
        bit(resolved_words(entries, count, i), p) == bit(bitmaps[i], p),
    decreases i,
{
    assert(stores_bitmap(entries, bitmaps, count, i));
    let own = resized(entries[i].words->Ok_0@, count);
    assert(bit(own, p) == if entries[i].xor_offset == 0 {
        bit(bitmaps[i], p)
    } else {
        bit(bitmaps[i], p) != bit(bitmaps[i - entries[i].xor_offset], p)
    });
    if entries[i].xor_offset > 0 {
        let from = i - entries[i].xor_offset;
        law_stored_bitmaps_are_restored(entries, bitmaps, count, from, p);
        let base = resolved_words(entries, count, from);
        lemma_resolved_len(entries, count, from);
        assert(0 <= p / 64 < count);
        lemma_xor_bit(own[p / 64], base[p / 64], (p % 64) as u64);
        let all = resolved_words(entries, count, i);
        assert(all[p / 64] == own[p / 64] ^ base[p / 64]);
    }
}

/// The bitmap of an entry is that of the commit whose position it gives; of
/// entries for one commit the last counts.
pub proof fn law_bitmap_is_that_of_its_commit(
    entries: Seq<BitmapEntryData>,
    lookup: Seq<ObjectId>,
    count: nat,
    n: nat,
    i: int,
)
    requires
        0 <= i < n <= entries.len(),
        forall|j: int|
            i < j < n ==> lookup[(#[trigger] entries[j]).object_position as int]
                != lookup[entries[i].object_position as int],
    ensures
        commit_word_map(entries, lookup, count, n).contains_key(lookup[entries[i].object_position as int]),
        commit_word_map(entries, lookup, count, n)[lookup[entries[i].object_position as int]] == resolved_words(
            entries,
            count,
            i,
        ),
    decreases n,
{
    if i < n - 1 {
        assert(lookup[entries[n - 1].object_position as int] != lookup[entries[i].object_position as int]);
        law_bitmap_is_that_of_its_commit(entries, lookup, count, (n - 1) as nat, i);
    }
}

/// No other commit has a bitmap.
pub proof fn law_other_commits_have_no_bitmap(
    entries: Seq<BitmapEntryData>,
    lookup: Seq<ObjectId>,
    count: nat,
    n: nat,
    oid: ObjectId,
)
    requires
        n <= entries.len(),
        forall|i: int| 0 <= i < n ==> lookup[(#[trigger] entries[i]).object_position as int] != oid,
    ensures
        !commit_word_map(entries, lookup, count, n).contains_key(oid),
    decreases n,
{
    if n > 0 {
        law_other_commits_have_no_bitmap(entries, lookup, count, (n - 1) as nat, oid);
        assert(lookup[entries[n - 1].object_position as int] != oid);
    }
}

/// The bits of a pack go by offset, one for each object.
pub proof fn law_pack_bits_go_by_offset(entries: Seq<PackIndexEntry>, i: int, j: int)
    requires
        0 <= i < j < entries.len(),
    ensures
        ({
            let sorted = stable_sort(offset_order(), entries);
            &&& sorted.to_multiset() == entries.to_multiset()
            &&& sorted[i].offset <= sorted[j].offset
            &&& pack_bit_order(entries).len() == entries.len()
            &&& pack_bit_order(entries)[i] == sorted[i].oid
            &&& pack_bit_order(entries)[j] == sorted[j].oid
        }),
{
    let less = offset_order();
    assert(is_order(less));
    law_stable_sort(less, entries);
    assert(!less(stable_sort(less, entries)[j], stable_sort(less, entries)[i]));
}

/// The first parent of a commit is the first that it names, and a commit at
/// which history stops has none.
pub proof fn law_first_parent_is_named_first<R: ObjectReader>(reader: &R, oid: ObjectId)
    requires
        reader.object_at(oid) is Ok,
        reader.object_at(oid)->Ok_0.content matches ObjectContent::Commit(Ok(_)),
    ensures
        reader.object_at(oid)->Ok_0.content matches ObjectContent::Commit(Ok(commit)) && match first_parent(
            reader,
            oid,
        ) {
            Ok(Some(parent)) => !reader.grafted(oid) && commit.parents@.len() > 0 && parent == commit.parents@[0],
            Ok(None) => reader.grafted(oid) || commit.parents@.len() == 0,
            Err(_) => false,
        },
{
}

proof fn lemma_lineages<R: ObjectReader>(reader: &R, stack: Seq<ObjectId>, seen: Seq<ObjectId>)
    requires
        forall|oid: ObjectId|
            #![trigger seen.contains(oid)]
            seen.contains(oid) ==> (first_parent(reader, oid) matches Ok(parent) && (parent matches Some(parent)
                ==> seen.contains(parent) || stack.contains(parent))),
    ensures
        lineages(reader, stack, seen) matches Ok(nodes) ==> {
            &&& forall|oid: ObjectId| #[trigger] seen.contains(oid) ==> nodes.contains(oid)
            &&& forall|oid: ObjectId| #[trigger] stack.contains(oid) ==> nodes.contains(oid)
            &&& forall|oid: ObjectId|
                #![trigger nodes.contains(oid)]
                nodes.contains(oid) ==> (first_parent(reader, oid) matches Ok(parent) && (parent matches Some(parent)
                    ==> nodes.contains(parent)))
        },
    decreases unseen(seen).len(), stack.len(),
{
    if stack.len() > 0 {
        let oid = stack.last();
        let rest = stack.drop_last();
        assert(stack[stack.len() - 1] == oid);
        assert forall|o: ObjectId| stack.contains(o) == (rest.contains(o) || o == oid) by {
            if stack.contains(o) {
                let k = choose|k: int| 0 <= k < stack.len() && stack[k] == o;
                if k < rest.len() {
                    assert(rest[k] == o);
                }
            }
            if rest.contains(o) {
                let k = choose|k: int| 0 <= k < rest.len() && rest[k] == o;
                assert(stack[k] == o);
            }
        }
        if seen.contains(oid) {
            assert forall|o: ObjectId| #![trigger seen.contains(o)] seen.contains(o) implies (first_parent(reader, o) matches Ok(
                parent,
            ) && (parent matches Some(parent) ==> seen.contains(parent) || rest.contains(parent))) by {}
            lemma_lineages(reader, rest, seen);
        } else {
            lemma_unseen_shrinks(seen, oid);
            let more = seen.push(oid);
            crate::walk_laws::lemma_push_contains(seen, oid, oid);
            assert forall|o: ObjectId| #[trigger] more.contains(o) == (seen.contains(o) || o == oid) by {
                crate::walk_laws::lemma_push_contains(seen, oid, o);
            }
            match first_parent(reader, oid) {
                Err(_) => {},
                Ok(None) => {
                    assert forall|o: ObjectId| #![trigger more.contains(o)] more.contains(o) implies (first_parent(
                        reader,
                        o,
                    ) matches Ok(parent) && (parent matches Some(parent) ==> more.contains(parent) || rest.contains(
                        parent,
                    ))) by {
                        if o != oid {
                            assert(seen.contains(o));
                        }
                    }
                    lemma_lineages(reader, rest, more);
                    if let Ok(nodes) = lineages(reader, rest, more) {
                        assert(more.contains(oid));
                        assert forall|o: ObjectId| #[trigger] seen.contains(o) implies nodes.contains(o) by {
                            assert(more.contains(o));
                        }
                    }
                },
                Ok(Some(parent)) => {
                    let longer = rest.push(parent);
                    assert forall|o: ObjectId| #[trigger] longer.contains(o) == (rest.contains(o) || o == parent) by {
                        crate::walk_laws::lemma_push_contains(rest, parent, o);
                    }
                    assert forall|o: ObjectId| #![trigger more.contains(o)] more.contains(o) implies (first_parent(
                        reader,
                        o,
                    ) matches Ok(up) && (up matches Some(up) ==> more.contains(up) || longer.contains(up))) by {
                        if o != oid {
                            assert(seen.contains(o));
                        }
                    }
                    lemma_lineages(reader, longer, more);
                    if let Ok(nodes) = lineages(reader, longer, more) {
                        assert(more.contains(oid));
                        assert forall|o: ObjectId| #[trigger] seen.contains(o) implies nodes.contains(o) by {
                            assert(more.contains(o));
                        }
                        assert forall|o: ObjectId| #[trigger] stack.contains(o) implies nodes.contains(o) by {
                            if rest.contains(o) {
                                assert(longer.contains(o));
                            }
                        }
                    }
                },
            }
        }
    }
}

/// The lineages of commits hold them and, with each commit, its first parent.
pub proof fn law_lineages_follow_first_parents<R: ObjectReader>(reader: &R, selected: Seq<ObjectId>)
    ensures
        lineages(reader, selected, Seq::empty()) matches Ok(nodes) ==> {
            &&& forall|oid: ObjectId| #[trigger] selected.contains(oid) ==> nodes.contains(oid)
            &&& forall|oid: ObjectId|
                #![trigger nodes.contains(oid)]
                nodes.contains(oid) ==> reader.object_at(oid) is Ok
                    && (reader.object_at(oid)->Ok_0.content matches ObjectContent::Commit(Ok(commit)) && (
                reader.grafted(oid) || commit.parents@.len() == 0 || nodes.contains(commit.parents@[0])))
        },
{
    lemma_lineages(reader, selected, Seq::empty());
}

/// The bitmap that is used is the first found: that of an incremental multi-pack
/// index, that of the multi-pack index, then those of the packs in turn. A
/// failure ends the search at the first of these only.
pub proof fn law_first_bitmap_is_used(probe: BitmapProbe, outcome: ProbeOutcome, candidates: usize)
    ensures
        outcome is Found <==> bitmap_search(probe, outcome, candidates) is Use,
        bitmap_search(probe, outcome, candidates) is Fail <==> probe is Incremental && outcome is Failed,
        !(outcome is Found) && !(outcome is Failed) && probe is Incremental ==> bitmap_search(
            probe,
            outcome,
            candidates,
        ) == BitmapSearch::Try(BitmapProbe::MultiPack),
        !(outcome is Found) && probe is MultiPack && candidates > 0 ==> bitmap_search(probe, outcome, candidates)
            == BitmapSearch::Try(BitmapProbe::Pack(0)),
        !(outcome is Found) && probe is MultiPack && candidates == 0 ==> bitmap_search(
            probe,
            outcome,
            candidates,
        ) is GiveUp,
        !(outcome is Found) ==> (probe matches BitmapProbe::Pack(i) ==> bitmap_search(probe, outcome, candidates)
            == if i + 1 < candidates {
            BitmapSearch::Try(BitmapProbe::Pack((i + 1) as usize))
        } else {
            BitmapSearch::GiveUp
        }),
{
}

/// The types of a bitmap without closures are those that the headers of the
/// objects give, in their order; they cannot be told where a header does not
/// read or is missing.
pub proof fn law_known_types_are_those_of_the_headers(
    headers: Seq<Result<Option<ObjectType>, GitError>>,
    n: nat,
)
    requires
        n <= headers.len(),
    ensures
        match known_types(headers, n) {
            Ok(types) => types.len() == n && forall|i: int|
                0 <= i < n ==> #[trigger] headers[i] == Ok::<Option<ObjectType>, GitError>(Some(types[i])),
            Err(at) => 0 <= at < n && !(headers[at] matches Ok(Some(_))) && forall|i: int|
                0 <= i < at ==> ((#[trigger] headers[i]) matches Ok(Some(_))),
        },
    decreases n,
{
    if n > 0 {
        law_known_types_are_those_of_the_headers(headers, (n - 1) as nat);
    }
}

/// The commits of a chain of layers are its objects of that type.
pub proof fn law_commits_are_the_objects_of_that_type(
    oids: Seq<ObjectId>,
    types: Seq<Option<ObjectType>>,
    oid: ObjectId,
)
    ensures
        commits_of(oids, types).contains(oid) <==> exists|i: int|
            0 <= i < oids.len() && #[trigger] oids[i] == oid && types[i] == Some(ObjectType::Commit),
    decreases oids.len(),
{
    if oids.len() > 0 {
        let rest = oids.drop_last();
        let last = oids.len() - 1;
        law_commits_are_the_objects_of_that_type(rest, types, oid);
        crate::walk_laws::lemma_push_contains(commits_of(rest, types), oids.last(), oid);
        assert(oids[last] == oids.last());
        if exists|i: int| 0 <= i < rest.len() && #[trigger] rest[i] == oid && types[i] == Some(ObjectType::Commit) {
            let i = choose|i: int|
                0 <= i < rest.len() && #[trigger] rest[i] == oid && types[i] == Some(ObjectType::Commit);
            assert(oids[i] == oid);
        }
        if exists|i: int| 0 <= i < oids.len() && #[trigger] oids[i] == oid && types[i] == Some(ObjectType::Commit) {
            let i = choose|i: int|
                0 <= i < oids.len() && #[trigger] oids[i] == oid && types[i] == Some(ObjectType::Commit);
            if i < last {
                assert(rest[i] == oid);
            }
        }
    }
}

/// The bits of a chain of layers are those of the layers below, and behind them
/// those of the next, by its reverse index where it has one.
pub proof fn law_layers_follow_each_other(layers: Seq<MultiPackIndexData>, layer: MultiPackIndexData, i: int)
    requires
        chain_bit_order(layers) is Some,
        layer.reverse_index matches Some(reverse) && 0 <= i < reverse@.len() && forall|k: int|
            0 <= k < reverse@.len() ==> (#[trigger] reverse@[k]) < layer.objects@.len(),
    ensures
        layer.reverse_index matches Some(reverse) && (chain_bit_order(layers.push(layer)) matches Some(order) && {
            let below = chain_bit_order(layers)->Some_0;
            &&& order.len() == below.len() + reverse@.len()
            &&& order.take(below.len() as int) == below
            &&& order[below.len() + i] == layer.objects@[reverse@[i] as int].oid
        }),
{
    assert(layers.push(layer).drop_last() =~= layers);
    let below = chain_bit_order(layers)->Some_0;
    let order = chain_bit_order(layers.push(layer))->Some_0;
    assert(order.take(below.len() as int) =~= below);
}

} // verus!
