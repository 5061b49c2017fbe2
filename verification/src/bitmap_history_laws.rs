//! What a walk with a bitmap finds where only history is wanted.

use crate::bitmap::cascade;
use crate::bitmap::is_bitmap_walk;
use crate::bitmap::law_cascade_is_least;
use crate::bitmap::lemma_position_map;
use crate::bitmap::reachable_end;
use crate::bitmap::BitmapWalkResult;
use crate::bitmap::LoadedPackBitmap;
use crate::bitmap_laws::found_by;
use crate::bitmap_laws::ids_at;
use crate::bitmap_laws::is_exact;
use crate::bitmap_walk::back_tasks;
use crate::bitmap_walk::fill;
use crate::bitmap_walk::front_tasks;
use crate::bitmap_walk::has_mark;
use crate::bitmap_walk::is_closure;
use crate::bitmap_walk::is_sound;
use crate::bitmap_walk::leads_to;
use crate::bitmap_walk::lemma_leads_through;
use crate::bitmap_walk::lemma_mark;
use crate::bitmap_walk::lemma_mark_adds_one;
use crate::bitmap_walk::lemma_start_leads;
use crate::bitmap_walk::lemma_unmarked_shrinks;
use crate::bitmap_walk::next_tasks;
use crate::bitmap_walk::no_marks;
use crate::bitmap_walk::object_graph;
use crate::bitmap_walk::outside;
use crate::bitmap_walk::reader_tasks;
use crate::bitmap_walk::root_chain;
use crate::bitmap_walk::root_tasks;
use crate::bitmap_walk::unmarked;
use crate::bitmap_walk::with_mark;
use crate::bitmap_walk::with_stored;
use crate::bitmap_walk::BitmapTask;
use crate::bitmap_walk::Coverage;
use crate::bitmap_walk::FillEnd;
use crate::bitmap_walk::Marks;
use crate::bitset::bits;
use crate::link_laws::law_leading_follows_every_link;
use crate::object::ObjectContent;
use crate::object::ObjectReader;
use crate::object::ObjectType;
use crate::object_id::ObjectId;
use crate::walk::is_closed;
use vstd::prelude::*;

verus! {

/// Whether `parent` is a parent of the commit `oid` that walks follow.
spec fn is_parent<R: ObjectReader>(reader: &R, oid: ObjectId, parent: ObjectId) -> bool {
    &&& reader.object_at(oid) is Ok
    &&& !reader.grafted(oid)
    &&& reader.object_at(oid)->Ok_0.content matches ObjectContent::Commit(Ok(commit)) && exists|i: int|
        0 <= i < commit.parents@.len() && #[trigger] commit.parents@[i] == parent
}

proof fn lemma_parent_is_led_to<R: ObjectReader>(
    reader: &R,
    starts: Set<ObjectId>,
    oid: ObjectId,
    parent: ObjectId,
)
    requires
        leads_to(reader, starts, oid),
        is_parent(reader, oid, parent),
    ensures
        leads_to(reader, starts, parent),
{
    law_leading_follows_every_link(reader, starts, oid, parent);
}

/// What holds of a walk through history in progress.
spec fn in_history<R: ObjectReader>(
    reader: &R,
    cover: Coverage,
    starts: Set<ObjectId>,
    stack: Seq<BitmapTask>,
    marks: Marks,
) -> bool {
    &&& forall|k: int|
        0 <= k < stack.len() ==> match #[trigger] stack[k] {
            BitmapTask::Commit(oid) => leads_to(reader, starts, oid),
            BitmapTask::Misused(_) => true,
            BitmapTask::Fail(_) => true,
            _ => false,
        }
    &&& forall|oid: ObjectId| #[trigger] has_mark(cover, marks, oid) ==> leads_to(reader, starts, oid)
    &&& forall|oid: ObjectId, parent: ObjectId|
        #![trigger has_mark(cover, marks, oid), is_parent(reader, oid, parent)]
        has_mark(cover, marks, oid) && is_parent(reader, oid, parent) ==> has_mark(cover, marks, parent)
            || stack.contains(BitmapTask::Commit(parent))
    &&& forall|oid: ObjectId| #[trigger]
        starts.contains(oid) ==> has_mark(cover, marks, oid) || stack.contains(BitmapTask::Commit(oid))
    &&& forall|p: int| #[trigger] marks.bits.contains(p) ==> has_object(cover, p)
    &&& forall|i: int|
        0 <= i < marks.extended.len() ==> !cover.positions.contains_key((#[trigger] marks.extended[i]).0)
}

/// Whether a bit is that of an object.
spec fn has_object(cover: Coverage, p: int) -> bool {
    exists|o: ObjectId| #[trigger] cover.positions.contains_key(o) && cover.positions[o] == p
}

proof fn lemma_below(stack: Seq<BitmapTask>, task: BitmapTask)
    requires
        stack.len() > 0,
    ensures
        stack.contains(task) == (stack.drop_last().contains(task) || task == stack.last()),
{
    let rest = stack.drop_last();
    assert(stack[stack.len() - 1] == stack.last());
    if rest.contains(task) {
        let k = choose|k: int| 0 <= k < rest.len() && rest[k] == task;
        assert(stack[k] == task);
    }
    if stack.contains(task) {
        let k = choose|k: int| 0 <= k < stack.len() && stack[k] == task;
        if k < rest.len() {
            assert(rest[k] == task);
        }
    }
}

/// Taking off a commit that has its mark keeps a walk in progress.
proof fn lemma_marked_is_passed<R: ObjectReader>(
    reader: &R,
    cover: Coverage,
    starts: Set<ObjectId>,
    stack: Seq<BitmapTask>,
    marks: Marks,
    oid: ObjectId,
)
    requires
        in_history(reader, cover, starts, stack, marks),
        stack.len() > 0,
        stack.last() == BitmapTask::Commit(oid),
        has_mark(cover, marks, oid),
    ensures
        in_history(reader, cover, starts, stack.drop_last(), marks),
{
    let rest = stack.drop_last();
    assert forall|k: int| 0 <= k < rest.len() implies match #[trigger] rest[k] {
        BitmapTask::Commit(oid) => leads_to(reader, starts, oid),
        BitmapTask::Misused(_) => true,
        BitmapTask::Fail(_) => true,
        _ => false,
    } by {
        assert(rest[k] == stack[k]);
    }
    assert forall|o: ObjectId, parent: ObjectId|
        #![trigger has_mark(cover, marks, o), is_parent(reader, o, parent)]
        has_mark(cover, marks, o) && is_parent(reader, o, parent) implies has_mark(cover, marks, parent)
        || rest.contains(BitmapTask::Commit(parent)) by {
        lemma_below(stack, BitmapTask::Commit(parent));
    }
    assert forall|o: ObjectId| #[trigger] starts.contains(o) implies has_mark(cover, marks, o) || rest.contains(
        BitmapTask::Commit(o),
    ) by {
        lemma_below(stack, BitmapTask::Commit(o));
    }
}

/// Taking in a stored closure keeps a walk in progress.
proof fn lemma_stored_is_taken_in<R: ObjectReader>(
    reader: &R,
    cover: Coverage,
    starts: Set<ObjectId>,
    stack: Seq<BitmapTask>,
    marks: Marks,
    oid: ObjectId,
)
    requires
        is_sound(reader, cover),
        in_history(reader, cover, starts, stack, marks),
        stack.len() > 0,
        stack.last() == BitmapTask::Commit(oid),
        cover.positions.contains_key(oid),
        cover.stored.contains_key(oid),
    ensures
        in_history(reader, cover, starts, stack.drop_last(), with_stored(cover, marks, oid)),
{
    let more = with_stored(cover, marks, oid);
    let own = set![oid];
    assert(is_closure(reader, cover.positions, own, cover.stored[oid]));
    assert(stack[stack.len() - 1] == BitmapTask::Commit(oid));
    lemma_start_leads(reader, own, oid);
    assert(has_mark(cover, more, oid));
    assert forall|o: ObjectId| #[trigger] has_mark(cover, more, o) implies leads_to(reader, starts, o) && (has_mark(
        cover,
        marks,
        o,
    ) || leads_to(reader, own, o)) by {
        if !has_mark(cover, marks, o) {
            assert(cover.positions.contains_key(o));
            assert(leads_to(reader, own, o));
            lemma_leads_through(reader, starts, oid, o);
        }
    }
    assert forall|o: ObjectId| has_mark(cover, marks, o) implies #[trigger] has_mark(cover, more, o) by {}
    assert forall|p: int| #[trigger] more.bits.contains(p) implies has_object(cover, p) by {
        if !marks.bits.contains(p) {
            let o = choose|o: ObjectId| #[trigger] cover.positions.contains_key(o) && cover.positions[o] == p;
            assert(cover.positions.contains_key(o));
        }
    }
    let rest = stack.drop_last();
    assert forall|k: int| 0 <= k < rest.len() implies match #[trigger] rest[k] {
        BitmapTask::Commit(oid) => leads_to(reader, starts, oid),
        BitmapTask::Misused(_) => true,
        BitmapTask::Fail(_) => true,
        _ => false,
    } by {
        assert(rest[k] == stack[k]);
    }
    assert forall|o: ObjectId, parent: ObjectId|
        #![trigger has_mark(cover, more, o), is_parent(reader, o, parent)]
        has_mark(cover, more, o) && is_parent(reader, o, parent) implies has_mark(cover, more, parent)
        || rest.contains(BitmapTask::Commit(parent)) by {
        if has_mark(cover, marks, o) {
            lemma_below(stack, BitmapTask::Commit(parent));
        } else {
            lemma_parent_is_led_to(reader, own, o, parent);
            assert(leads_to(reader, own, parent));
            assert(cover.positions.contains_key(parent));
        }
    }
    assert forall|o: ObjectId| #[trigger] starts.contains(o) implies has_mark(cover, more, o) || rest.contains(
        BitmapTask::Commit(o),
    ) by {
        lemma_below(stack, BitmapTask::Commit(o));
    }
}

/// Replacing a newly marked commit by its parents keeps a walk in progress.
proof fn lemma_commit_is_replaced<R: ObjectReader>(
    reader: &R,
    cover: Coverage,
    starts: Set<ObjectId>,
    stack: Seq<BitmapTask>,
    marks: Marks,
    oid: ObjectId,
)
    requires
        is_sound(reader, cover),
        in_history(reader, cover, starts, stack, marks),
        stack.len() > 0,
        stack.last() == BitmapTask::Commit(oid),
    ensures
        in_history(
            reader,
            cover,
            starts,
            stack.drop_last() + next_tasks(reader, false, oid, true),
            with_mark(cover, marks, oid, ObjectType::Commit),
        ),
{
    let more = with_mark(cover, marks, oid, ObjectType::Commit);
    let rest = stack.drop_last();
    let next = next_tasks(reader, false, oid, true);
    let all = rest + next;
    assert(stack[stack.len() - 1] == BitmapTask::Commit(oid));
    lemma_mark_adds_one(cover, marks, oid, ObjectType::Commit);
    assert forall|p: int| #[trigger] more.bits.contains(p) implies has_object(cover, p) by {
        if !marks.bits.contains(p) {
            assert(cover.positions.contains_key(oid) && cover.positions[oid] == p);
        }
    }
    assert forall|i: int| 0 <= i < more.extended.len() implies !cover.positions.contains_key(
        (#[trigger] more.extended[i]).0,
    ) by {
        if i < marks.extended.len() {
            assert(more.extended[i] == marks.extended[i]);
        }
    }
    assert forall|task: BitmapTask| rest.contains(task) implies #[trigger] all.contains(task) by {
        let k = choose|k: int| 0 <= k < rest.len() && rest[k] == task;
        assert(all[k] == task);
    }
    assert forall|parent: ObjectId| is_parent(reader, oid, parent) implies #[trigger] all.contains(
        BitmapTask::Commit(parent),
    ) by {
        match reader.object_at(oid)->Ok_0.content {
            ObjectContent::Commit(Ok(commit)) => {
                let i = choose|i: int| 0 <= i < commit.parents@.len() && #[trigger] commit.parents@[i] == parent;
                assert(next[i] == BitmapTask::Commit(parent));
                assert(all[rest.len() + i] == BitmapTask::Commit(parent));
            },
            _ => {},
        }
    }
    assert forall|k: int| 0 <= k < all.len() implies match #[trigger] all[k] {
        BitmapTask::Commit(o) => leads_to(reader, starts, o),
        BitmapTask::Misused(_) => true,
        BitmapTask::Fail(_) => true,
        _ => false,
    } by {
        if k < rest.len() {
            assert(all[k] == stack[k]);
        } else {
            let i = k - rest.len();
            assert(all[k] == next[i]);
            if let BitmapTask::Commit(o) = next[i] {
                match reader.object_at(oid)->Ok_0.content {
                    ObjectContent::Commit(Ok(commit)) => {
                        assert(!reader.grafted(oid));
                        assert(commit.parents@[i] == o);
                        assert(is_parent(reader, oid, o));
                        lemma_parent_is_led_to(reader, starts, oid, o);
                    },
                    _ => {},
                }
            }
        }
    }
    assert forall|o: ObjectId, parent: ObjectId|
        #![trigger has_mark(cover, more, o), is_parent(reader, o, parent)]
        has_mark(cover, more, o) && is_parent(reader, o, parent) implies has_mark(cover, more, parent)
        || all.contains(BitmapTask::Commit(parent)) by {
        if o != oid {
            assert(has_mark(cover, marks, o));
            lemma_below(stack, BitmapTask::Commit(parent));
        }
    }
    assert forall|o: ObjectId| #[trigger] starts.contains(o) implies has_mark(cover, more, o) || all.contains(
        BitmapTask::Commit(o),
    ) by {
        lemma_below(stack, BitmapTask::Commit(o));
    }
}

proof fn lemma_history_is_filled<R: ObjectReader>(
    reader: &R,
    cover: Coverage,
    starts: Set<ObjectId>,
    stack: Seq<BitmapTask>,
    marks: Marks,
)
    requires
        is_sound(reader, cover),
        in_history(reader, cover, starts, stack, marks),
    ensures
        fill(reader_tasks(reader, false), cover, stack, marks) matches FillEnd::Done(done) ==> in_history(
            reader,
            cover,
            starts,
            Seq::empty(),
            done,
        ),
    decreases unmarked(cover, marks).len(), stack.len(),
{
    if stack.len() == 0 {
        assert(stack =~= Seq::empty());
    } else {
        let rest = stack.drop_last();
        assert(stack[stack.len() - 1] == stack.last());
        if let BitmapTask::Commit(oid) = stack.last() {
            if crate::bitmap_walk::admits(cover, oid) {
                if has_mark(cover, marks, oid) {
                    lemma_marked_is_passed(reader, cover, starts, stack, marks, oid);
                    lemma_history_is_filled(reader, cover, starts, rest, marks);
                } else if cover.positions.contains_key(oid) && cover.stored.contains_key(oid) {
                    let more = with_stored(cover, marks, oid);
                    lemma_stored_is_taken_in(reader, cover, starts, stack, marks, oid);
                    lemma_unmarked_shrinks(cover, marks, more);
                    lemma_history_is_filled(reader, cover, starts, rest, more);
                } else {
                    let more = with_mark(cover, marks, oid, ObjectType::Commit);
                    lemma_commit_is_replaced(reader, cover, starts, stack, marks, oid);
                    lemma_mark(cover, marks, oid, ObjectType::Commit);
                    lemma_history_is_filled(
                        reader,
                        cover,
                        starts,
                        rest + next_tasks(reader, false, oid, true),
                        more,
                    );
                }
            }
        }
    }
}

proof fn lemma_commit_roots<R: ObjectReader>(reader: &R, roots: Seq<ObjectId>)
    requires
        forall|i: int|
            0 <= i < roots.len() ==> reader.object_at(#[trigger] roots[i]) is Ok && reader.object_at(
                roots[i],
            )->Ok_0.content is Commit,
    ensures
        front_tasks(reader, roots) == Seq::<BitmapTask>::empty(),
        back_tasks(reader, roots) == roots.map_values(|oid: ObjectId| BitmapTask::Commit(oid)),
    decreases roots.len(),
{
    if roots.len() > 0 {
        let rest = roots.drop_last();
        assert forall|i: int| 0 <= i < rest.len() implies reader.object_at(#[trigger] rest[i]) is Ok
            && reader.object_at(rest[i])->Ok_0.content is Commit by {
            assert(rest[i] == roots[i]);
        }
        lemma_commit_roots(reader, rest);
        let root = roots.last();
        assert(roots[roots.len() - 1] == root);
        let chain = root_chain(reader, root, Seq::empty());
        assert(!Seq::<ObjectId>::empty().contains(root));
        assert(chain == seq![BitmapTask::Commit(root)]);
        assert(chain.last() is Commit);
        assert(front_tasks(reader, roots) =~= Seq::empty());
        assert(back_tasks(reader, roots) =~= roots.map_values(|oid: ObjectId| BitmapTask::Commit(oid)));
    } else {
        assert(back_tasks(reader, roots) =~= roots.map_values(|oid: ObjectId| BitmapTask::Commit(oid)));
    }
}

/// A walk from commits with a bitmap that does not look for objects finds the
/// commits and, with each commit that it finds, every parent that walks follow;
/// and it finds nothing that the commits do not lead to. All that is stored in
/// the bitmap is to be right.
pub proof fn law_history_walk_finds_every_parent<R: ObjectReader>(
    reader: &R,
    bitmap: LoadedPackBitmap,
    roots: Seq<ObjectId>,
    result: BitmapWalkResult,
)
    requires
        bitmap.wf(),
        is_exact(reader, bitmap),
        is_bitmap_walk(bitmap, reader, roots, false, Ok(result)),
        forall|i: int|
            0 <= i < roots.len() ==> reader.object_at(#[trigger] roots[i]) is Ok && reader.object_at(
                roots[i],
            )->Ok_0.content is Commit,
    ensures
        forall|i: int| 0 <= i < roots.len() ==> found_by(bitmap, result).contains(#[trigger] roots[i]),
        forall|oid: ObjectId| #[trigger]
            found_by(bitmap, result).contains(oid) && reader.object_at(oid) is Ok && !reader.grafted(oid)
                ==> match reader.object_at(oid)->Ok_0.content {
                ObjectContent::Commit(Ok(commit)) => forall|i: int|
                    0 <= i < commit.parents@.len() ==> found_by(bitmap, result).contains(#[trigger] commit.parents@[i]),
                _ => true,
            },
        forall|oid: ObjectId| #[trigger]
            found_by(bitmap, result).contains(oid) ==> leads_to(reader, roots.to_set(), oid),
{
    let cover = bitmap.coverage();
    let positions = bitmap.oid_to_pack@;
    let starts = roots.to_set();
    let oids = bitmap.pack_to_oid@;
    let stack = root_tasks(reader, roots);
    lemma_position_map(oids);
    lemma_commit_roots(reader, roots);
    assert(stack =~= roots.map_values(|oid: ObjectId| BitmapTask::Commit(oid))) by {
        assert(front_tasks(reader, roots).reverse() =~= Seq::empty());
    }
    assert(is_sound(reader, cover)) by {
        assert forall|c: ObjectId| #[trigger] cover.stored.contains_key(c) && cover.positions.contains_key(c) implies
            is_closure(reader, cover.positions, set![c], cover.stored[c]) by {
            assert(bitmap.commit_words@.contains_key(c));
        }
        assert forall|a: ObjectId, b: ObjectId|
            #![trigger cover.positions[a], cover.positions[b]]
            cover.positions.contains_key(a) && cover.positions.contains_key(b) && cover.positions[a]
                == cover.positions[b] implies a == b by {
            assert(oids[positions[a] as int] == a && oids[positions[b] as int] == b);
        }
    }
    assert forall|k: int| 0 <= k < stack.len() implies match #[trigger] stack[k] {
        BitmapTask::Commit(oid) => leads_to(reader, starts, oid),
        BitmapTask::Misused(_) => true,
        BitmapTask::Fail(_) => true,
        _ => false,
    } by {
        assert(starts.contains(roots[k]));
        lemma_start_leads(reader, starts, roots[k]);
    }
    assert forall|oid: ObjectId| #[trigger] starts.contains(oid) implies stack.contains(BitmapTask::Commit(oid)) by {
        let k = choose|k: int| 0 <= k < roots.len() && roots[k] == oid;
        assert(stack[k] == BitmapTask::Commit(oid));
    }
    assert forall|oid: ObjectId| !#[trigger] has_mark(cover, no_marks(), oid) by {
        assert(outside(no_marks().extended) =~= Seq::empty());
    }
    lemma_history_is_filled(reader, cover, starts, stack, no_marks());
    let marks = reachable_end(bitmap, reader, roots, false)->Done_0;
    assert(in_history(reader, cover, starts, Seq::empty(), marks));
    let grown = cascade(bitmap.pseudo_merges@, Set::empty(), marks.bits).1;
    let all = Marks { bits: grown, extended: marks.extended };
    lemma_grown_is_closed(reader, bitmap, starts, marks);
    let found = found_by(bitmap, result);
    assert forall|oid: ObjectId| #[trigger] found.contains(oid) <==> has_mark(cover, all, oid) by {
        if has_mark(cover, all, oid) && positions.contains_key(oid) {
            assert(oids[positions[oid] as int] == oid);
        }
        if exists|p: int| 0 <= p < oids.len() && bits(result.words@).contains(p) && #[trigger] oids[p] == oid {
            let p = choose|p: int|
                0 <= p < oids.len() && bits(result.words@).contains(p) && #[trigger] oids[p] == oid;
            assert(stands_right(reader, cover, starts, all, p));
            let o = choose|o: ObjectId| #[trigger]
                cover.positions.contains_key(o) && cover.positions[o] == p && leads_to(reader, starts, o) && forall|
                    parent: ObjectId,
                | #[trigger]
                    is_parent(reader, o, parent) ==> has_mark(cover, all, parent);
            assert(oids[positions[o] as int] == o);
        }
        if outside(result.extended@).contains(oid) {
            let i = choose|i: int| 0 <= i < result.extended@.len() && outside(result.extended@)[i] == oid;
            assert(!positions.contains_key(marks.extended[i].0));
        }
    }
    assert forall|oid: ObjectId| #[trigger] has_mark(cover, all, oid) implies leads_to(reader, starts, oid) && forall|
        parent: ObjectId,
    | #[trigger] is_parent(reader, oid, parent) ==> has_mark(cover, all, parent) by {
        if positions.contains_key(oid) {
            let p = positions[oid] as int;
            assert(stands_right(reader, cover, starts, all, p));
            let o = choose|o: ObjectId| #[trigger]
                cover.positions.contains_key(o) && cover.positions[o] == p && leads_to(reader, starts, o) && forall|
                    parent: ObjectId,
                | #[trigger]
                    is_parent(reader, o, parent) ==> has_mark(cover, all, parent);
            assert(oids[positions[o] as int] == o && oids[positions[oid] as int] == oid);
        } else {
            assert(has_mark(cover, marks, oid));
            assert forall|parent: ObjectId| #[trigger] is_parent(reader, oid, parent) implies has_mark(
                cover,
                all,
                parent,
            ) by {
                assert(has_mark(cover, marks, parent));
                assert(marks.bits.subset_of(grown));
            }
        }
    }
    assert forall|i: int| 0 <= i < roots.len() implies found.contains(#[trigger] roots[i]) by {
        assert(starts.contains(roots[i]));
        assert(has_mark(cover, marks, roots[i]));
        assert(has_mark(cover, all, roots[i]));
    }
    assert forall|oid: ObjectId| #[trigger]
        found.contains(oid) && reader.object_at(oid) is Ok && !reader.grafted(oid)
        implies match reader.object_at(oid)->Ok_0.content {
        ObjectContent::Commit(Ok(commit)) => forall|i: int|
            0 <= i < commit.parents@.len() ==> found.contains(#[trigger] commit.parents@[i]),
        _ => true,
    } by {
        assert(has_mark(cover, all, oid));
        match reader.object_at(oid)->Ok_0.content {
            ObjectContent::Commit(Ok(commit)) => {
                assert forall|i: int| 0 <= i < commit.parents@.len() implies found.contains(
                    #[trigger] commit.parents@[i],
                ) by {
                    assert(is_parent(reader, oid, commit.parents@[i]));
                }
            },
            _ => {},
        }
    }
}

/// Whether a bit is that of an object that is led to and whose parents all have
/// their marks.
spec fn stands_right<R: ObjectReader>(
    reader: &R,
    cover: Coverage,
    starts: Set<ObjectId>,
    all: Marks,
    p: int,
) -> bool {
    exists|o: ObjectId| #[trigger]
        cover.positions.contains_key(o) && cover.positions[o] == p && leads_to(reader, starts, o) && forall|
            parent: ObjectId,
        | #[trigger] is_parent(reader, o, parent) ==> has_mark(cover, all, parent)
}

/// What the pseudo-merges of a bitmap add to a walk through history is led to,
/// with all its parents.
proof fn lemma_grown_is_closed<R: ObjectReader>(
    reader: &R,
    bitmap: LoadedPackBitmap,
    starts: Set<ObjectId>,
    marks: Marks,
)
    requires
        bitmap.wf(),
        is_exact(reader, bitmap),
        is_sound(reader, bitmap.coverage()),
        in_history(reader, bitmap.coverage(), starts, Seq::empty(), marks),
    ensures
        ({
            let grown = cascade(bitmap.pseudo_merges@, Set::empty(), marks.bits).1;
            let all = Marks { bits: grown, extended: marks.extended };
            &&& marks.bits.subset_of(grown)
            &&& forall|p: int| #[trigger]
                grown.contains(p) ==> stands_right(reader, bitmap.coverage(), starts, all, p)
        }),
{
    let cover = bitmap.coverage();
    let positions = bitmap.oid_to_pack@;
    let merges = bitmap.pseudo_merges@;
    let grown = cascade(merges, Set::empty(), marks.bits).1;
    let all = Marks { bits: grown, extended: marks.extended };
    let graph = object_graph(reader);
    law_cascade_is_least(merges, marks.bits, Set::new(|p: int| true));
    assert(marks.bits.subset_of(grown));
    let right = Set::new(|p: int| grown.contains(p) && stands_right(reader, cover, starts, all, p));
    assert forall|p: int| marks.bits.contains(p) implies right.contains(p) by {
        assert(has_object(cover, p));
        let o = choose|o: ObjectId| #[trigger] cover.positions.contains_key(o) && cover.positions[o] == p;
        assert(has_mark(cover, marks, o));
        assert forall|parent: ObjectId| #[trigger] is_parent(reader, o, parent) implies has_mark(cover, all, parent) by {
            assert(has_mark(cover, marks, parent));
        }
        assert(stands_right(reader, cover, starts, all, p));
    }
    assert forall|m: int| 0 <= m < merges.len() && bits((#[trigger] merges[m]).commits@).subset_of(right) implies bits(
        merges[m].bitmap@,
    ).subset_of(right) by {
        let merge = merges[m];
        let commits = ids_at(positions, bits(merge.commits@));
        assert(is_closure(reader, positions, commits, bits(merge.bitmap@)));
        assert(bits(merge.commits@).subset_of(grown));
        assert(bits(merge.bitmap@).subset_of(grown));
        assert forall|c: ObjectId| #[trigger] commits.contains(c) implies leads_to(reader, starts, c) by {
            let p = positions[c] as int;
            assert(right.contains(p));
            let o = choose|o: ObjectId| #[trigger]
                cover.positions.contains_key(o) && cover.positions[o] == p && leads_to(reader, starts, o) && forall|
                    parent: ObjectId,
                | #[trigger]
                    is_parent(reader, o, parent) ==> has_mark(cover, all, parent);
            assert(cover.positions[o] == cover.positions[c]);
        }
        assert forall|p: int| bits(merge.bitmap@).contains(p) implies right.contains(p) by {
            let o = choose|o: ObjectId| #[trigger] positions.contains_key(o) && positions[o] == p;
            assert(leads_to(reader, commits, o));
            assert(leads_to(reader, starts, o)) by {
                assert forall|set: Set<ObjectId>| is_closed(graph, Set::empty(), starts, set) implies set.contains(
                    o,
                ) by {
                    assert forall|c: ObjectId| commits.contains(c) implies #[trigger] set.contains(c) by {
                        assert(leads_to(reader, starts, c));
                    }
                    assert(is_closed(graph, Set::empty(), commits, set));
                }
            }
            assert forall|parent: ObjectId| #[trigger] is_parent(reader, o, parent) implies has_mark(
                cover,
                all,
                parent,
            ) by {
                lemma_parent_is_led_to(reader, commits, o, parent);
                assert(leads_to(reader, commits, parent));
                assert(positions.contains_key(parent));
            }
            assert(cover.positions.contains_key(o) && cover.positions[o] == p);
            assert(stands_right(reader, cover, starts, all, p));
        }
    }
    law_cascade_is_least(merges, marks.bits, right);
}

} // verus!
