//! Stable sorting.

use crate::object_id::byte_slice_less;
use crate::object_id::bytes_less;
use crate::object_id::lemma_bytes_less_irreflexive;
use crate::object_id::lemma_bytes_less_total;
use crate::object_id::lemma_bytes_less_transitive;
use crate::object_id::ObjectId;
use vstd::prelude::*;
use vstd::string::*;
use vstd::utf8::*;

verus! {

/// Which of two values sorts strictly first.
pub type Less<T> = spec_fn(T, T) -> bool;

/// Whether `less` is a strict weak order: no two values each sort before the
/// other, and a value between two others sorts after the first or before the
/// second.
pub open spec fn is_order<T>(less: Less<T>) -> bool {
    &&& forall|a: T, b: T| #[trigger] less(a, b) ==> !less(b, a)
    &&& forall|a: T, b: T, c: T| #[trigger] less(a, c) ==> #[trigger] less(a, b) || less(b, c)
}

/// `items` with `x` in front of the first of them that does not sort before it.
pub open spec fn insert_sorted<T>(less: Less<T>, x: T, items: Seq<T>) -> Seq<T>
    decreases items.len(),
{
    if items.len() > 0 && less(items[0], x) {
        seq![items[0]] + insert_sorted(less, x, items.drop_first())
    } else {
        seq![x] + items
    }
}

/// `items` in order, values of which neither sorts first kept as they stood.
pub open spec fn stable_sort<T>(less: Less<T>, items: Seq<T>) -> Seq<T>
    decreases items.len(),
{
    if items.len() == 0 {
        items
    } else {
        insert_sorted(less, items[0], stable_sort(less, items.drop_first()))
    }
}

/// Whether no value of `items` sorts before one that stands ahead of it.
pub open spec fn is_sorted<T>(less: Less<T>, items: Seq<T>) -> bool {
    forall|i: int, j: int| 0 <= i < j < items.len() ==> !less(#[trigger] items[j], #[trigger] items[i])
}

proof fn lemma_insert_sorted<T>(less: Less<T>, x: T, items: Seq<T>)
    requires
        is_order(less),
        is_sorted(less, items),
    ensures
        is_sorted(less, insert_sorted(less, x, items)),
        insert_sorted(less, x, items).to_multiset() == items.to_multiset().insert(x),
        insert_sorted(less, x, items).len() == items.len() + 1,
    decreases items.len(),
{
    broadcast use vstd::seq_lib::group_to_multiset_ensures;

    let out = insert_sorted(less, x, items);
    if items.len() > 0 && less(items[0], x) {
        let rest = items.drop_first();
        assert forall|i: int, j: int| 0 <= i < j < rest.len() implies !less(
            #[trigger] rest[j],
            #[trigger] rest[i],
        ) by {
            assert(!less(items[j + 1], items[i + 1]));
        }
        lemma_insert_sorted(less, x, rest);
        let tail = insert_sorted(less, x, rest);
        assert forall|j: int| 0 <= j < tail.len() implies !less(#[trigger] tail[j], items[0]) by {
            assert(tail.to_multiset().contains(tail[j]));
            if tail[j] != x {
                assert(rest.to_multiset().contains(tail[j]));
                assert(rest.contains(tail[j]));
                let k = choose|k: int| 0 <= k < rest.len() && rest[k] == tail[j];
                assert(!less(items[k + 1], items[0]));
            }
        }
        assert forall|i: int, j: int| 0 <= i < j < out.len() implies !less(
            #[trigger] out[j],
            #[trigger] out[i],
        ) by {
            assert(out[j] == tail[j - 1]);
            if i > 0 {
                assert(out[i] == tail[i - 1]);
            }
        }
        assert(items =~= seq![items[0]] + rest);
        vstd::seq_lib::lemma_multiset_commutative(seq![items[0]], rest);
        vstd::seq_lib::lemma_multiset_commutative(seq![items[0]], tail);
        assert(out.to_multiset() =~= items.to_multiset().insert(x));
    } else {
        assert(out == seq![x] + items);
        assert forall|i: int, j: int| 0 <= i < j < out.len() implies !less(
            #[trigger] out[j],
            #[trigger] out[i],
        ) by {
            assert(out[j] == items[j - 1]);
            if i > 0 {
                assert(out[i] == items[i - 1]);
            } else if less(out[j], x) {
                assert(less(items[j - 1], items[0]) || less(items[0], x));
                if j - 1 > 0 {
                    assert(!less(items[j - 1], items[0]));
                } else {
                    assert(!less(items[0], items[0]));
                }
            }
        }
        vstd::seq_lib::lemma_multiset_commutative(seq![x], items);
        assert(out.to_multiset() =~= items.to_multiset().insert(x));
    }
}

/// Sorting puts the items in order and neither adds nor drops any.
pub proof fn law_stable_sort<T>(less: Less<T>, items: Seq<T>)
    requires
        is_order(less),
    ensures
        is_sorted(less, stable_sort(less, items)),
        stable_sort(less, items).to_multiset() == items.to_multiset(),
        stable_sort(less, items).len() == items.len(),
    decreases items.len(),
{
    broadcast use vstd::seq_lib::group_to_multiset_ensures;

    if items.len() > 0 {
        let rest = items.drop_first();
        law_stable_sort(less, rest);
        lemma_insert_sorted(less, items[0], stable_sort(less, rest));
        assert(items =~= seq![items[0]] + rest);
        vstd::seq_lib::lemma_multiset_commutative(seq![items[0]], rest);
        assert(items.to_multiset() =~= rest.to_multiset().insert(items[0]));
    }
}

/// Where inserting puts a value: behind values that sort before it.
proof fn lemma_insert_place<T>(less: Less<T>, x: T, items: Seq<T>) -> (place: int)
    ensures
        0 <= place <= items.len(),
        insert_sorted(less, x, items) == items.take(place) + seq![x] + items.skip(place),
        forall|k: int| 0 <= k < place ==> less(#[trigger] items[k], x),
    decreases items.len(),
{
    let out = insert_sorted(less, x, items);
    if items.len() > 0 && less(items[0], x) {
        let rest = items.drop_first();
        let place = lemma_insert_place(less, x, rest) + 1;
        assert(out =~= items.take(place) + seq![x] + items.skip(place));
        assert forall|k: int| 0 <= k < place implies less(#[trigger] items[k], x) by {
            if k > 0 {
                assert(rest[k - 1] == items[k]);
            }
        }
        place
    } else {
        assert(out =~= items.take(0) + seq![x] + items.skip(0));
        0
    }
}

/// Sorting moves each item to a place of its own, and of two items neither of
/// which sorts before the other the one that stood ahead stays ahead: `at` gives
/// the place that each item of the sorted list had.
pub proof fn law_equal_items_keep_their_order<T>(less: Less<T>, items: Seq<T>) -> (at: Seq<int>)
    ensures
        at.len() == stable_sort(less, items).len(),
        at.len() == items.len(),
        forall|i: int|
            0 <= i < at.len() ==> 0 <= #[trigger] at[i] < items.len() && stable_sort(less, items)[i] == items[at[i]],
        forall|i: int, j: int|
            0 <= i < j < at.len() ==> #[trigger] at[i] != #[trigger] at[j] && (less(
                stable_sort(less, items)[i],
                stable_sort(less, items)[j],
            ) || at[i] < at[j]),
    decreases items.len(),
{
    if items.len() == 0 {
        Seq::empty()
    } else {
        let rest = items.drop_first();
        let x = items[0];
        let behind = law_equal_items_keep_their_order(less, rest);
        let sorted = stable_sort(less, rest);
        let place = lemma_insert_place(less, x, sorted);
        let out = stable_sort(less, items);
        let at = Seq::new(
            items.len(),
            |i: int|
                if i < place {
                    behind[i] + 1
                } else if i == place {
                    0
                } else {
                    behind[i - 1] + 1
                },
        );
        assert forall|i: int| 0 <= i < at.len() implies 0 <= #[trigger] at[i] < items.len() && out[i] == items[at[i]] by {
            if i < place {
                assert(out[i] == sorted[i]);
                assert(sorted[i] == rest[behind[i]]);
            } else if i > place {
                assert(out[i] == sorted[i - 1]);
                assert(sorted[i - 1] == rest[behind[i - 1]]);
            }
        }
        assert forall|i: int, j: int| 0 <= i < j < at.len() implies #[trigger] at[i] != #[trigger] at[j] && (less(
            out[i],
            out[j],
        ) || at[i] < at[j]) by {
            let a = if i < place {
                i
            } else {
                i - 1
            };
            let b = if j < place {
                j
            } else {
                j - 1
            };
            if i == place {
                assert(behind[b] >= 0);
            } else if j == place {
                assert(less(sorted[i], x));
                assert(out[i] == sorted[i]);
                assert(behind[a] >= 0);
            } else {
                assert(out[i] == sorted[a] && out[j] == sorted[b]);
                assert(behind[a] != behind[b]);
                assert(at[i] == behind[a] + 1 && at[j] == behind[b] + 1);
            }
        }
        at
    }
}

/// A sorted list holds the items that were sorted.
pub proof fn lemma_sort_contains<T>(less: Less<T>, items: Seq<T>, x: T)
    requires
        is_order(less),
    ensures
        stable_sort(less, items).contains(x) == items.contains(x),
{
    broadcast use vstd::seq_lib::group_to_multiset_ensures;

    law_stable_sort(less, items);
    assert(items.to_multiset().contains(x) == items.contains(x));
    assert(stable_sort(less, items).to_multiset().contains(x) == stable_sort(less, items).contains(x));
}

/// Items of two sorted lists in one, those of `a` ahead of equals of `b`.
pub open spec fn merged<T>(less: Less<T>, a: Seq<T>, b: Seq<T>) -> Seq<T>
    decreases a.len() + b.len(),
{
    if a.len() == 0 {
        b
    } else if b.len() == 0 {
        a
    } else if less(b[0], a[0]) {
        seq![b[0]] + merged(less, a, b.drop_first())
    } else {
        seq![a[0]] + merged(less, a.drop_first(), b)
    }
}

proof fn lemma_insert_into_merge<T>(less: Less<T>, x: T, a: Seq<T>, b: Seq<T>)
    requires
        is_order(less),
    ensures
        merged(less, insert_sorted(less, x, a), b) == insert_sorted(less, x, merged(less, a, b)),
    decreases a.len() + b.len(),
{
    let ins = insert_sorted(less, x, a);
    if b.len() == 0 {
    } else if a.len() == 0 {
        assert(ins =~= seq![x]);
        assert(ins.drop_first() =~= a);
        if less(b[0], x) {
            lemma_insert_into_merge(less, x, a, b.drop_first());
        }
    } else if less(a[0], x) {
        assert(ins.drop_first() =~= insert_sorted(less, x, a.drop_first()));
        assert(ins[0] == a[0]);
        if less(b[0], a[0]) {
            assert(less(b[0], x) || less(x, a[0]));
            lemma_insert_into_merge(less, x, a, b.drop_first());
            let m = merged(less, a, b);
            assert(m.drop_first() =~= merged(less, a, b.drop_first()));
        } else {
            lemma_insert_into_merge(less, x, a.drop_first(), b);
            let m = merged(less, a, b);
            assert(m.drop_first() =~= merged(less, a.drop_first(), b));
        }
    } else {
        assert(ins =~= seq![x] + a);
        assert(ins.drop_first() =~= a);
        if less(b[0], x) {
            assert(less(b[0], a[0]) || less(a[0], x));
            lemma_insert_into_merge(less, x, a, b.drop_first());
            let m = merged(less, a, b);
            assert(m.drop_first() =~= merged(less, a, b.drop_first()));
        }
    }
}

proof fn lemma_sort_splits<T>(less: Less<T>, a: Seq<T>, b: Seq<T>)
    requires
        is_order(less),
    ensures
        stable_sort(less, a + b) == merged(less, stable_sort(less, a), stable_sort(less, b)),
    decreases a.len(),
{
    if a.len() == 0 {
        assert(a + b =~= b);
    } else {
        let rest = a.drop_first();
        assert((a + b).drop_first() =~= rest + b);
        lemma_sort_splits(less, rest, b);
        lemma_insert_into_merge(less, a[0], stable_sort(less, rest), stable_sort(less, b));
    }
}

/// An order on values of type `T`.
pub trait Order<T> {
    spec fn less(&self) -> Less<T>;

    /// The order is a strict weak order.
    proof fn lemma_is_order(&self)
        ensures
            is_order(self.less()),
    ;

    fn is_less(&self, a: &T, b: &T) -> (less: bool)
        ensures
            less == (self.less())(*a, *b),
    ;
}

fn merge<T: Copy, O: Order<T>>(order: &O, a: &Vec<T>, b: &Vec<T>) -> (out: Vec<T>)
    ensures
        out@ == merged(order.less(), a@, b@),
{
    let mut out: Vec<T> = Vec::with_capacity(a.len());
    let mut i: usize = 0;
    let mut j: usize = 0;
    assert(a@.skip(0) =~= a@);
    assert(b@.skip(0) =~= b@);
    assert(out@ + merged(order.less(), a@, b@) =~= merged(order.less(), a@, b@));
    while i < a.len() || j < b.len()
        invariant
            i <= a@.len(),
            j <= b@.len(),
            out@ + merged(order.less(), a@.skip(i as int), b@.skip(j as int)) == merged(
                order.less(),
                a@,
                b@,
            ),
        decreases a@.len() - i + b@.len() - j,
    {
        let from_b = i == a.len() || (j < b.len() && order.is_less(&b[j], &a[i]));
        let ghost ra = a@.skip(i as int);
        let ghost rb = b@.skip(j as int);
        let ghost before = out@;
        if from_b {
            out.push(b[j]);
            proof {
                assert(rb[0] == b@[j as int]);
                assert(rb.drop_first() =~= b@.skip(j + 1));
                assert(merged(order.less(), ra, rb) =~= seq![rb[0]] + merged(order.less(), ra, rb.drop_first()));
                assert(before + merged(order.less(), ra, rb) =~= out@ + merged(order.less(), ra, rb.drop_first()));
            }
            j += 1;
        } else {
            out.push(a[i]);
            proof {
                assert(ra[0] == a@[i as int]);
                assert(ra.drop_first() =~= a@.skip(i + 1));
                assert(merged(order.less(), ra, rb) =~= seq![ra[0]] + merged(order.less(), ra.drop_first(), rb));
                assert(before + merged(order.less(), ra, rb) =~= out@ + merged(order.less(), ra.drop_first(), rb));
            }
            i += 1;
        }
    }
    assert(a@.skip(i as int) =~= Seq::<T>::empty());
    assert(b@.skip(j as int) =~= Seq::<T>::empty());
    assert(out@ + Seq::<T>::empty() =~= out@);
    out
}

fn sort_range<T: Copy, O: Order<T>>(order: &O, items: &[T], lo: usize, hi: usize) -> (out: Vec<T>)
    requires
        lo <= hi <= items@.len(),
    ensures
        out@ == stable_sort(order.less(), items@.subrange(lo as int, hi as int)),
    decreases hi - lo,
{
    let ghost part = items@.subrange(lo as int, hi as int);
    if hi - lo == 0 {
        let out: Vec<T> = Vec::new();
        assert(part =~= out@);
        out
    } else if hi - lo == 1 {
        let mut out: Vec<T> = Vec::new();
        out.push(items[lo]);
        assert(part.drop_first() =~= Seq::<T>::empty());
        assert(out@ =~= stable_sort(order.less(), part)) by {
            reveal_with_fuel(stable_sort, 2);
        }
        out
    } else {
        let mid: usize = lo + (hi - lo) / 2;
        let a = sort_range(order, items, lo, mid);
        let b = sort_range(order, items, mid, hi);
        proof {
            order.lemma_is_order();
            let pa = items@.subrange(lo as int, mid as int);
            let pb = items@.subrange(mid as int, hi as int);
            assert(pa + pb =~= part);
            lemma_sort_splits(order.less(), pa, pb);
        }
        merge(order, &a, &b)
    }
}

/// The items in order, equal ones kept as they stood.
pub fn sort<T: Copy, O: Order<T>>(order: &O, items: &[T]) -> (out: Vec<T>)
    ensures
        out@ == stable_sort(order.less(), items@),
{
    assert(items@.subrange(0, items@.len() as int) =~= items@);
    sort_range(order, items, 0, items.len())
}

/// Ids by their bytes, as an index lists them.
pub struct ByOid;

/// The order of ids in an index.
pub open spec fn oid_less() -> Less<ObjectId> {
    |a: ObjectId, b: ObjectId| a.less(b)
}

pub proof fn lemma_oid_order()
    ensures
        is_order(oid_less()),
{
    let less = oid_less();
    assert forall|a: ObjectId, b: ObjectId| #[trigger] less(a, b) implies !less(b, a) by {
        if less(b, a) {
            lemma_bytes_less_transitive(a.raw(), b.raw(), a.raw());
            lemma_bytes_less_irreflexive(a.raw());
        }
    }
    assert forall|a: ObjectId, b: ObjectId, c: ObjectId| #[trigger] less(a, c) implies #[trigger] less(a, b)
        || less(b, c) by {
        if !less(a, b) && !less(b, c) {
            if less(b, a) {
                lemma_bytes_less_transitive(b.raw(), a.raw(), c.raw());
            } else {
                lemma_bytes_less_total(a.raw(), b.raw());
            }
        }
    }
}

impl Order<ObjectId> for ByOid {
    open spec fn less(&self) -> Less<ObjectId> {
        oid_less()
    }

    proof fn lemma_is_order(&self) {
        lemma_oid_order();
    }

    fn is_less(&self, a: &ObjectId, b: &ObjectId) -> (less: bool) {
        a.is_less(b)
    }
}

/// The ids in index order.
pub fn sort_oids(oids: &[ObjectId]) -> (sorted: Vec<ObjectId>)
    ensures
        sorted@ == stable_sort(oid_less(), oids@),
        is_sorted(oid_less(), sorted@),
        sorted@.to_multiset() == oids@.to_multiset(),
        sorted@.len() == oids@.len(),
        sorted@.to_set() == oids@.to_set(),
{
    let sorted = sort(&ByOid, oids);
    proof {
        lemma_oid_order();
        law_stable_sort(oid_less(), oids@);
        assert forall|oid: ObjectId| sorted@.contains(oid) == oids@.contains(oid) by {
            lemma_sort_contains(oid_less(), oids@, oid);
        }
        assert(sorted@.to_set() =~= oids@.to_set());
    }
    sorted
}

proof fn lemma_insert_map<A, B>(less_a: Less<A>, less_b: Less<B>, f: spec_fn(A) -> B, x: A, items: Seq<A>)
    requires
        forall|a: A, b: A| #[trigger] less_a(a, b) == less_b(f(a), f(b)),
    ensures
        insert_sorted(less_a, x, items).map_values(f) == insert_sorted(less_b, f(x), items.map_values(f)),
    decreases items.len(),
{
    if items.len() > 0 && less_a(items[0], x) {
        lemma_insert_map(less_a, less_b, f, x, items.drop_first());
        assert(items.map_values(f).drop_first() =~= items.drop_first().map_values(f));
    }
    assert(insert_sorted(less_a, x, items).map_values(f) =~= insert_sorted(
        less_b,
        f(x),
        items.map_values(f),
    ));
}

/// Sorting by what a function shows of the items is sorting what it shows.
pub proof fn lemma_sort_map<A, B>(less_a: Less<A>, less_b: Less<B>, f: spec_fn(A) -> B, items: Seq<A>)
    requires
        forall|a: A, b: A| #[trigger] less_a(a, b) == less_b(f(a), f(b)),
    ensures
        stable_sort(less_a, items).map_values(f) == stable_sort(less_b, items.map_values(f)),
    decreases items.len(),
{
    if items.len() > 0 {
        lemma_sort_map(less_a, less_b, f, items.drop_first());
        assert(items.map_values(f).drop_first() =~= items.drop_first().map_values(f));
        lemma_insert_map(less_a, less_b, f, items[0], stable_sort(less_a, items.drop_first()));
    }
    assert(stable_sort(less_a, items).map_values(f) =~= stable_sort(less_b, items.map_values(f)));
}

/// Byte strings in lexicographic order.
pub open spec fn bytes_order() -> Less<Seq<u8>> {
    |a: Seq<u8>, b: Seq<u8>| bytes_less(a, b)
}

pub proof fn lemma_bytes_order()
    ensures
        is_order(bytes_order()),
{
    let less = bytes_order();
    assert forall|a: Seq<u8>, b: Seq<u8>| #[trigger] less(a, b) implies !less(b, a) by {
        if less(b, a) {
            lemma_bytes_less_transitive(a, b, a);
            lemma_bytes_less_irreflexive(a);
        }
    }
    assert forall|a: Seq<u8>, b: Seq<u8>, c: Seq<u8>| #[trigger] less(a, c) implies #[trigger] less(a, b)
        || less(b, c) by {
        if !less(a, b) && !less(b, c) {
            if less(b, a) {
                lemma_bytes_less_transitive(b, a, c);
            } else {
                lemma_bytes_less_total(a, b);
            }
        }
    }
}

/// Texts in the order of their UTF-8 bytes.
pub open spec fn text_order() -> Less<Seq<char>> {
    |a: Seq<char>, b: Seq<char>| bytes_less(encode_utf8(a), encode_utf8(b))
}

/// The texts of `names`.
pub open spec fn texts(names: Seq<String>) -> Seq<Seq<char>> {
    names.map_values(|name: String| name@)
}

pub proof fn lemma_text_order()
    ensures
        is_order(text_order()),
{
    lemma_bytes_order();
    let less = text_order();
    let by_bytes = bytes_order();
    assert forall|a: Seq<char>, b: Seq<char>| #[trigger] less(a, b) implies !less(b, a) by {
        assert(by_bytes(encode_utf8(a), encode_utf8(b)));
    }
    assert forall|a: Seq<char>, b: Seq<char>, c: Seq<char>| #[trigger] less(a, c) implies #[trigger] less(a, b)
        || less(b, c) by {
        assert(by_bytes(encode_utf8(a), encode_utf8(c)));
        assert(by_bytes(encode_utf8(a), encode_utf8(b)) || by_bytes(encode_utf8(b), encode_utf8(c)));
    }
}

/// Positions in a list of names, by the names.
struct ByName<'a> {
    names: &'a [String],
}

spec fn name_key(names: Seq<String>, i: usize) -> Seq<char> {
    if i < names.len() {
        names[i as int]@
    } else {
        Seq::empty()
    }
}

impl<'a> Order<usize> for ByName<'a> {
    closed spec fn less(&self) -> Less<usize> {
        |a: usize, b: usize| (text_order())(name_key(self.names@, a), name_key(self.names@, b))
    }

    proof fn lemma_is_order(&self) {
        lemma_text_order();
        let less = self.less();
        let by_text = text_order();
        assert forall|a: usize, b: usize| #[trigger] less(a, b) implies !less(b, a) by {
            assert(by_text(name_key(self.names@, a), name_key(self.names@, b)));
        }
        assert forall|a: usize, b: usize, c: usize| #[trigger] less(a, c) implies #[trigger] less(a, b)
            || less(b, c) by {
            assert(by_text(name_key(self.names@, a), name_key(self.names@, c)));
            assert(by_text(name_key(self.names@, a), name_key(self.names@, b)) || by_text(
                name_key(self.names@, b),
                name_key(self.names@, c),
            ));
        }
    }

    fn is_less(&self, a: &usize, b: &usize) -> (less: bool) {
        let left = if *a < self.names.len() {
            self.names[*a].as_str()
        } else {
            ""
        };
        let right = if *b < self.names.len() {
            self.names[*b].as_str()
        } else {
            ""
        };
        proof {
            reveal_strlit("");
            assert(left@ =~= name_key(self.names@, *a));
            assert(right@ =~= name_key(self.names@, *b));
        }
        byte_slice_less(left.as_bytes(), right.as_bytes())
    }
}

/// The positions of a list of `n` items.
pub open spec fn positions(n: nat) -> Seq<usize> {
    Seq::new(n, |i: int| i as usize)
}

/// The positions of a list of `n` items.
pub fn all_positions(n: usize) -> (out: Vec<usize>)
    ensures
        out@ == positions(n as nat),
{
    let mut out: Vec<usize> = Vec::with_capacity(n);
    let mut i: usize = 0;
    while i < n
        invariant
            i <= n,
            out@ == positions(i as nat),
        decreases n - i,
    {
        out.push(i);
        assert(out@ =~= positions((i + 1) as nat));
        i += 1;
    }
    out
}

/// The names in the order of their UTF-8 bytes.
pub fn sort_names(names: &[String]) -> (sorted: Vec<String>)
    ensures
        texts(sorted@) == stable_sort(text_order(), texts(names@)),
{
    let order = ByName { names };
    let all = all_positions(names.len());
    let sorted_positions = sort(&order, &all);
    proof {
        order.lemma_is_order();
        law_stable_sort(order.less(), all@);
        let f = |i: usize| name_key(names@, i);
        lemma_sort_map(order.less(), text_order(), f, all@);
        assert(all@.map_values(f) =~= texts(names@));
        assert forall|k: int| 0 <= k < sorted_positions@.len() implies #[trigger] sorted_positions@[k] < names@.len() by {
            assert(sorted_positions@.contains(sorted_positions@[k]));
            lemma_sort_contains(order.less(), all@, sorted_positions@[k]);
            let j = choose|j: int| 0 <= j < all@.len() && all@[j] == sorted_positions@[k];
        }
        assert(texts(names@) == all@.map_values(f));
    }
    let ghost f = |i: usize| name_key(names@, i);
    let mut sorted: Vec<String> = Vec::new();
    let mut k: usize = 0;
    while k < sorted_positions.len()
        invariant
            k <= sorted_positions@.len(),
            forall|j: int| 0 <= j < sorted_positions@.len() ==> #[trigger] sorted_positions@[j] < names@.len(),
            sorted@.len() == k,
            forall|j: int| 0 <= j < k ==> sorted@[j]@ == name_key(names@, sorted_positions@[j]),
        decreases sorted_positions@.len() - k,
    {
        sorted.push(names[sorted_positions[k]].clone());
        k += 1;
    }
    proof {
        assert(texts(sorted@) =~= sorted_positions@.map_values(f));
    }
    sorted
}

/// What a filter keeps is what the list holds and the filter accepts.
pub proof fn lemma_filter_contains<T>(items: Seq<T>, keep: spec_fn(T) -> bool, x: T)
    ensures
        items.filter(keep).contains(x) <==> items.contains(x) && keep(x),
    decreases items.len(),
{
    reveal(Seq::filter);
    if items.len() > 0 {
        let rest = items.drop_last();
        lemma_filter_contains(rest, keep, x);
        let kept = rest.filter(keep);
        let out = items.filter(keep);
        if rest.contains(x) {
            let i = choose|i: int| 0 <= i < rest.len() && rest[i] == x;
            assert(items[i] == x);
        }
        if items.contains(x) && !rest.contains(x) {
            let i = choose|i: int| 0 <= i < items.len() && items[i] == x;
            if i < rest.len() {
                assert(rest[i] == x);
            }
            assert(items.last() == x);
        }
        assert(items[items.len() - 1] == items.last());
        if keep(items.last()) {
            assert(out == kept.push(items.last()));
            assert(out[kept.len() as int] == items.last());
            if kept.contains(x) {
                let i = choose|i: int| 0 <= i < kept.len() && kept[i] == x;
                assert(out[i] == x);
            }
            if out.contains(x) && x != items.last() {
                let i = choose|i: int| 0 <= i < out.len() && out[i] == x;
                assert(kept[i] == x);
            }
        }
    }
}

} // verus!
