//! The packs of an object directory: their order, lookups by abbreviated id,
//! and the objects that they list.

use crate::hex_id::all_hex;
use crate::hex_id::has_hex_prefix;
use crate::hex_id::hex_prefix_matches;
use crate::hex_id::hex_value;
use crate::hex_id::nibble;
use crate::hex_id::prefix_floor;
use crate::object_id::bytes_less;
use crate::object_id::ObjectFormat;
use crate::object_id::ObjectId;
use crate::oid_map::OidSet;
use crate::order::is_sorted;
use crate::order::oid_less;
use vstd::prelude::*;

verus! {

/// The positions between which an index lists the ids that begin with a byte.
pub fn pack_index_fanout_range(fanout: &[u32; 256], first_byte: u8) -> (range: (usize, usize))
    ensures
        range.0 == if first_byte == 0 {
            0
        } else {
            fanout@[first_byte - 1] as int
        },
        range.1 == fanout@[first_byte as int],
{
    let bucket: usize = first_byte as usize;
    let start: usize = if bucket == 0 {
        0
    } else {
        fanout[bucket - 1] as usize
    };
    (start, fanout[bucket] as usize)
}

/// Whether a fanout table says, for each byte, how many of the ids begin with
/// it or a lesser one.
pub open spec fn is_fanout(fanout: Seq<u32>, oids: Seq<ObjectId>) -> bool {
    &&& fanout.len() == 256
    &&& forall|b: int| 0 <= b < 256 ==> (#[trigger] fanout[b]) <= oids.len()
    &&& forall|b: int, i: int|
        #![trigger fanout[b], oids[i]]
        0 <= b < 256 && 0 <= i < oids.len() ==> (oids[i].raw()[0] <= b <==> i < fanout[b])
}

/// The first of the ids between two positions that does not sort before
/// `floor`.
pub fn lower_bound_pack_index_entries(oids: &[ObjectId], start: usize, end: usize, floor: &ObjectId) -> (at: usize)
    requires
        start <= end <= oids@.len(),
    ensures
        start <= at <= end,
        is_sorted(oid_less(), oids@) ==> forall|i: int| start <= i < at ==> (#[trigger] oids@[i]).less(*floor),
        is_sorted(oid_less(), oids@) ==> forall|i: int| at <= i < end ==> !(#[trigger] oids@[i]).less(*floor),
{
    let mut lo: usize = start;
    let mut hi: usize = end;
    while lo < hi
        invariant
            start <= lo <= hi <= end <= oids@.len(),
            is_sorted(oid_less(), oids@) ==> forall|i: int| start <= i < lo ==> (#[trigger] oids@[i]).less(*floor),
            is_sorted(oid_less(), oids@) ==> forall|i: int| hi <= i < end ==> !(#[trigger] oids@[i]).less(*floor),
        decreases hi - lo,
    {
        let mid: usize = lo + (hi - lo) / 2;
        if oids[mid].is_less(floor) {
            proof {
                if is_sorted(oid_less(), oids@) {
                    assert forall|i: int| start <= i < mid + 1 implies (#[trigger] oids@[i]).less(*floor) by {
                        if i < mid {
                            lemma_below(oids@, i, mid as int, *floor);
                        }
                    }
                }
            }
            lo = mid + 1;
        } else {
            proof {
                if is_sorted(oid_less(), oids@) {
                    assert forall|i: int| mid <= i < end implies !(#[trigger] oids@[i]).less(*floor) by {
                        if i > mid && oids@[i].less(*floor) {
                            lemma_below(oids@, mid as int, i, *floor);
                        }
                    }
                }
            }
            hi = mid;
        }
    }
    lo
}

proof fn lemma_below(oids: Seq<ObjectId>, i: int, j: int, floor: ObjectId)
    requires
        is_sorted(oid_less(), oids),
        0 <= i < j < oids.len(),
        oids[j].less(floor),
    ensures
        oids[i].less(floor),
{
    let less = oid_less();
    assert(!less(oids[j], oids[i]));
    crate::order::lemma_oid_order();
    assert(less(oids[j], floor));
    assert(less(oids[j], oids[i]) || less(oids[i], floor));
}

/// Where two ids of a format first differ.
proof fn lemma_first_difference(a: Seq<u8>, b: Seq<u8>) -> (k: int)
    requires
        bytes_less(a, b),
        a.len() == b.len(),
    ensures
        0 <= k < a.len(),
        forall|i: int| 0 <= i < k ==> a[i] == b[i],
        a[k] < b[k],
    decreases a.len(),
{
    if a[0] == b[0] {
        let k = lemma_first_difference(a.drop_first(), b.drop_first());
        assert forall|i: int| 0 <= i < k + 1 implies a[i] == b[i] by {
            if i > 0 {
                assert(a.drop_first()[i - 1] == b.drop_first()[i - 1]);
            }
        }
        k + 1
    } else {
        0
    }
}

/// The digits of the least id with a prefix.
proof fn lemma_floor_digit(format: ObjectFormat, digits: Seq<u8>, i: int)
    requires
        all_hex(digits),
        0 <= i < digits.len() <= 2 * format.raw(),
    ensures
        hex_value(digits[i]) == Some(nibble(prefix_floor(format, digits), i)),
{
    let padded = digits + Seq::new((2 * format.raw() - digits.len()) as nat, |i: int| 48u8);
    let floor = prefix_floor(format, digits);
    let k = i / 2;
    assert(floor[k] == (16 * hex_value(padded[2 * k])->Some_0 + hex_value(padded[2 * k + 1])->Some_0) as u8);
    assert(hex_value(digits[2 * k]) is Some);
    if 2 * k + 1 < digits.len() {
        assert(hex_value(digits[2 * k + 1]) is Some);
    }
}

/// The first digit in which an id departs from a prefix that it does not have.
proof fn lemma_first_departure(raw: Seq<u8>, digits: Seq<u8>, from: int) -> (n: int)
    requires
        0 <= from <= digits.len() <= 2 * raw.len(),
        forall|i: int| 0 <= i < from ==> hex_value(#[trigger] digits[i]) == Some(nibble(raw, i)),
        !has_hex_prefix(raw, digits),
    ensures
        0 <= n < digits.len(),
        hex_value(digits[n]) != Some(nibble(raw, n)),
        forall|i: int| 0 <= i < n ==> hex_value(#[trigger] digits[i]) == Some(nibble(raw, i)),
    decreases digits.len() - from,
{
    if from < digits.len() && hex_value(digits[from]) == Some(nibble(raw, from)) {
        lemma_first_departure(raw, digits, from + 1)
    } else {
        from
    }
}

/// Ids that agree with a prefix on the digits of a byte agree on the byte.
proof fn lemma_same_byte(a: Seq<u8>, b: Seq<u8>, digits: Seq<u8>, i: int)
    requires
        0 <= i,
        2 * i + 1 < digits.len(),
        hex_value(digits[2 * i]) == Some(nibble(a, 2 * i)),
        hex_value(digits[2 * i + 1]) == Some(nibble(a, 2 * i + 1)),
        hex_value(digits[2 * i]) == Some(nibble(b, 2 * i)),
        hex_value(digits[2 * i + 1]) == Some(nibble(b, 2 * i + 1)),
    ensures
        a[i] == b[i],
{
    assert(a[i] / 16 == b[i] / 16 && a[i] % 16 == b[i] % 16);
}

/// An id that comes behind the least one with a prefix, and does not have the
/// prefix, comes behind every one that has it.
proof fn lemma_prefix_is_a_run(format: ObjectFormat, digits: Seq<u8>, a: Seq<u8>, b: Seq<u8>)
    requires
        all_hex(digits),
        digits.len() <= 2 * format.raw(),
        a.len() == format.raw(),
        b.len() == format.raw(),
        !bytes_less(a, prefix_floor(format, digits)),
        !has_hex_prefix(a, digits),
        has_hex_prefix(b, digits),
    ensures
        bytes_less(b, a),
{
    let floor = prefix_floor(format, digits);
    assert(floor.len() == format.raw());
    let n = lemma_first_departure(a, digits, 0);
    let k = n / 2;
    assert forall|i: int| 0 <= i < k implies a[i] == b[i] && a[i] == floor[i] by {
        assert(hex_value(digits[2 * i]) == Some(nibble(a, 2 * i)));
        assert(hex_value(digits[2 * i + 1]) == Some(nibble(a, 2 * i + 1)));
        assert(hex_value(digits[2 * i]) == Some(nibble(b, 2 * i)));
        assert(hex_value(digits[2 * i + 1]) == Some(nibble(b, 2 * i + 1)));
        lemma_floor_digit(format, digits, 2 * i);
        lemma_floor_digit(format, digits, 2 * i + 1);
        lemma_same_byte(a, b, digits, i);
        lemma_same_byte(a, floor, digits, i);
    }
    if a[k] < floor[k] {
        crate::object_id::lemma_bytes_less_at(a, floor, k);
    }
    lemma_floor_digit(format, digits, 2 * k);
    assert(hex_value(digits[2 * k]) == Some(nibble(b, 2 * k)));
    assert(b[k] / 16 == floor[k] / 16);
    if n == 2 * k {
        assert(a[k] / 16 != floor[k] / 16);
    } else {
        assert(n == 2 * k + 1);
        assert(hex_value(digits[2 * k]) == Some(nibble(a, 2 * k)));
        lemma_floor_digit(format, digits, n);
        assert(hex_value(digits[n]) == Some(nibble(b, n)));
        assert(b[k] % 16 == floor[k] % 16);
        assert(a[k] / 16 == floor[k] / 16);
        assert(a[k] % 16 != floor[k] % 16);
    }
    assert(b[k] < a[k]);
    crate::object_id::lemma_bytes_less_at(b, a, k);
}

/// Which ids of a list have a prefix.
pub open spec fn prefix_matches(oids: Seq<ObjectId>, digits: Seq<u8>) -> Set<ObjectId> {
    Set::new(|oid: ObjectId| oids.contains(oid) && has_hex_prefix(oid.raw(), digits))
}

/// Adds the ids of an index that begin with some digits, at least two of them.
/// In an index that is in order, those are all that do.
pub fn collect_pack_index_prefix_matches(
    format: ObjectFormat,
    oids: &[ObjectId],
    fanout: &[u32; 256],
    digits: &[u8],
    floor: &ObjectId,
    found: &mut OidSet,
)
    requires
        digits@.len() >= 2,
        digits@.len() <= 2 * format.raw(),
        all_hex(digits@),
        floor.spec_format() == format,
        floor.raw() == prefix_floor(format, digits@),
    ensures
        forall|oid: ObjectId| #[trigger]
            final(found)@.contains(oid) ==> old(found)@.contains(oid) || prefix_matches(oids@, digits@).contains(
                oid,
            ),
        forall|oid: ObjectId| #[trigger] old(found)@.contains(oid) ==> final(found)@.contains(oid),
        is_sorted(oid_less(), oids@) && is_fanout(fanout@, oids@) && (forall|i: int|
            0 <= i < oids@.len() ==> (#[trigger] oids@[i]).raw().len() == format.raw()) ==> final(found)@ == old(
            found,
        )@.union(prefix_matches(oids@, digits@)),
{
    if oids.len() == 0 {
        assert(found@ =~= old(found)@.union(prefix_matches(oids@, digits@)));
        return;
    }
    let first: u8 = floor.byte_at(0);
    let (start, end) = pack_index_fanout_range(fanout, first);
    proof {
        lemma_floor_first(format, digits@);
    }
    let ghost ordered = is_sorted(oid_less(), oids@) && is_fanout(fanout@, oids@) && (forall|i: int|
        0 <= i < oids@.len() ==> (#[trigger] oids@[i]).raw().len() == format.raw());
    proof {
        if ordered {
            assert forall|i: int| 0 <= i < oids@.len() && has_hex_prefix(
                (#[trigger] oids@[i]).raw(),
                digits@,
            ) implies start <= i < end by {
                lemma_match_first(format, digits@, oids@[i].raw());
                assert(oids@[i].raw()[0] == first);
                assert(oids@[i].raw()[0] <= first <==> i < fanout@[first as int]);
                if first > 0 {
                    assert(oids@[i].raw()[0] <= first - 1 <==> i < fanout@[first - 1]);
                }
            }
        }
    }
    if start >= end || end > oids.len() {
        proof {
            if ordered {
                assert(fanout@[first as int] <= oids@.len());
                assert(prefix_matches(oids@, digits@) =~= Set::empty());
                assert(found@ =~= old(found)@.union(prefix_matches(oids@, digits@)));
            }
        }
        return;
    }
    let lower: usize = lower_bound_pack_index_entries(oids, start, end, floor);
    let mut i: usize = lower;
    proof {
        if ordered {
            assert forall|k: int| 0 <= k < lower && has_hex_prefix((#[trigger] oids@[k]).raw(), digits@)
                implies false by {
                assert(oids@[k].less(*floor));
                lemma_match_not_below(format, digits@, oids@[k].raw());
            }
        }
    }
    while i < end
        invariant
            lower <= i <= end <= oids@.len(),
            forall|oid: ObjectId| #[trigger]
                found@.contains(oid) <==> old(found)@.contains(oid) || exists|k: int|
                    lower <= k < i && #[trigger] oids@[k] == oid,
            forall|k: int| lower <= k < i ==> has_hex_prefix((#[trigger] oids@[k]).raw(), digits@),
            ordered == (is_sorted(oid_less(), oids@) && is_fanout(fanout@, oids@) && (forall|i: int|
                0 <= i < oids@.len() ==> (#[trigger] oids@[i]).raw().len() == format.raw())),
            ordered ==> forall|k: int|
                0 <= k < oids@.len() && has_hex_prefix((#[trigger] oids@[k]).raw(), digits@) ==> lower <= k < end,
            ordered ==> forall|k: int| lower <= k < end ==> !(#[trigger] oids@[k]).less(*floor),
            all_hex(digits@),
            digits@.len() <= 2 * format.raw(),
            floor.raw() == prefix_floor(format, digits@),
        decreases end - i,
    {
        let oid = oids[i];
        if !hex_prefix_matches(&oid, digits) {
            proof {
                if ordered {
                    assert forall|k: int| 0 <= k < oids@.len() && has_hex_prefix(
                        (#[trigger] oids@[k]).raw(),
                        digits@,
                    ) implies lower <= k < i by {
                        if k > i {
                            assert(!oids@[i as int].less(*floor));
                            lemma_prefix_is_a_run(format, digits@, oid.raw(), oids@[k].raw());
                            let less = oid_less();
                            assert(!less(oids@[k], oids@[i as int]));
                        }
                    }
                    lemma_collected(oids@, digits@, old(found)@, found@, lower as int, i as int);
                }
            }
            return;
        }
        let ghost held = found@;
        found.insert(oid);
        proof {
            assert forall|o: ObjectId| #[trigger] found@.contains(o) <==> old(found)@.contains(o) || exists|k: int|
                lower <= k < i + 1 && #[trigger] oids@[k] == o by {
                if held.contains(o) && !old(found)@.contains(o) {
                    let k = choose|k: int| lower <= k < i && #[trigger] oids@[k] == o;
                    assert(oids@[k] == o);
                }
                if o == oid {
                    assert(oids@[i as int] == o);
                }
            }
        }
        i += 1;
    }
    proof {
        if ordered {
            lemma_collected(oids@, digits@, old(found)@, found@, lower as int, i as int);
        }
    }
}

proof fn lemma_collected(
    oids: Seq<ObjectId>,
    digits: Seq<u8>,
    before: Set<ObjectId>,
    found: Set<ObjectId>,
    lower: int,
    i: int,
)
    requires
        0 <= lower <= i <= oids.len(),
        forall|oid: ObjectId| #[trigger]
            found.contains(oid) <==> before.contains(oid) || exists|k: int| lower <= k < i && #[trigger] oids[k] == oid,
        forall|k: int| lower <= k < i ==> has_hex_prefix((#[trigger] oids[k]).raw(), digits),
        forall|k: int|
            0 <= k < oids.len() && has_hex_prefix((#[trigger] oids[k]).raw(), digits) ==> lower <= k < i,
    ensures
        found == before.union(prefix_matches(oids, digits)),
{
    assert forall|oid: ObjectId| found.contains(oid) == before.union(prefix_matches(oids, digits)).contains(oid) by {
        if prefix_matches(oids, digits).contains(oid) {
            let k = choose|k: int| 0 <= k < oids.len() && oids[k] == oid;
            assert(has_hex_prefix(oids[k].raw(), digits));
            assert(lower <= k < i && oids[k] == oid);
        }
        if found.contains(oid) && !before.contains(oid) {
            let k = choose|k: int| lower <= k < i && #[trigger] oids[k] == oid;
            assert(oids.contains(oid));
            assert(has_hex_prefix(oids[k].raw(), digits));
        }
    }
    assert(found =~= before.union(prefix_matches(oids, digits)));
}

proof fn lemma_floor_first(format: ObjectFormat, digits: Seq<u8>)
    requires
        2 <= digits.len() <= 2 * format.raw(),
        all_hex(digits),
    ensures
        prefix_floor(format, digits)[0] == 16 * hex_value(digits[0])->Some_0 + hex_value(digits[1])->Some_0,
        prefix_floor(format, digits).len() == format.raw(),
{
    let padded = digits + Seq::new((2 * format.raw() - digits.len()) as nat, |i: int| 48u8);
    assert(padded[0] == digits[0] && padded[1] == digits[1]);
    assert(hex_value(digits[0]) is Some && hex_value(digits[1]) is Some);
}

proof fn lemma_match_first(format: ObjectFormat, digits: Seq<u8>, raw: Seq<u8>)
    requires
        2 <= digits.len() <= 2 * format.raw(),
        all_hex(digits),
        raw.len() == format.raw(),
        has_hex_prefix(raw, digits),
    ensures
        raw[0] == prefix_floor(format, digits)[0],
{
    lemma_floor_first(format, digits);
    assert(hex_value(digits[0]) == Some(nibble(raw, 0)));
    assert(hex_value(digits[1]) == Some(nibble(raw, 1)));
}

/// No id with a prefix comes before the least one.
proof fn lemma_match_not_below(format: ObjectFormat, digits: Seq<u8>, raw: Seq<u8>)
    requires
        digits.len() <= 2 * format.raw(),
        all_hex(digits),
        raw.len() == format.raw(),
        has_hex_prefix(raw, digits),
    ensures
        !bytes_less(raw, prefix_floor(format, digits)),
{
    let floor = prefix_floor(format, digits);
    let padded = digits + Seq::new((2 * format.raw() - digits.len()) as nat, |i: int| 48u8);
    assert(floor.len() == format.raw());
    if bytes_less(raw, floor) {
        let k = lemma_first_difference(raw, floor);
        assert(floor[k] == (16 * hex_value(padded[2 * k])->Some_0 + hex_value(padded[2 * k + 1])->Some_0) as u8);
        if 2 * k < digits.len() {
            assert(hex_value(digits[2 * k]) == Some(nibble(raw, 2 * k)));
            if 2 * k + 1 < digits.len() {
                assert(hex_value(digits[2 * k + 1]) == Some(nibble(raw, 2 * k + 1)));
            }
        }
    }
}

/// The floor of a prefix is the least id that has it.
pub proof fn law_floor_is_the_least_match(format: ObjectFormat, digits: Seq<u8>, raw: Seq<u8>)
    requires
        digits.len() <= 2 * format.raw(),
        all_hex(digits),
    ensures
        prefix_floor(format, digits).len() == format.raw(),
        has_hex_prefix(prefix_floor(format, digits), digits),
        raw.len() == format.raw() && has_hex_prefix(raw, digits) ==> !bytes_less(raw, prefix_floor(format, digits)),
{
    let floor = prefix_floor(format, digits);
    assert(floor.len() == format.raw());
    assert forall|i: int| 0 <= i < digits.len() implies hex_value(#[trigger] digits[i]) == Some(nibble(floor, i)) by {
        lemma_floor_digit(format, digits, i);
    }
    if raw.len() == format.raw() && has_hex_prefix(raw, digits) {
        lemma_match_not_below(format, digits, raw);
    }
}

} // verus!
