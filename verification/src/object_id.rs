//! Object formats and object ids.

use crate::text::hex;
use crate::text::hex_text;
use vstd::prelude::*;

verus! {

/// Raw bytes an id of the widest format takes.
pub const MAX_RAW_LEN: usize = 32;

/// The hash function that names objects in a repository.
#[derive(Debug, Clone, Copy, PartialEq, Eq, Structural, Hash)]
pub enum ObjectFormat {
    Sha1,
    Sha256,
}

impl ObjectFormat {
    /// Bytes in a raw id of this format.
    pub open spec fn raw(self) -> nat {
        match self {
            ObjectFormat::Sha1 => 20,
            ObjectFormat::Sha256 => 32,
        }
    }

    pub fn raw_len(self) -> (len: usize)
        ensures
            len == self.raw(),
    {
        match self {
            ObjectFormat::Sha1 => 20,
            ObjectFormat::Sha256 => 32,
        }
    }

    /// Characters in the hexadecimal form of an id of this format.
    pub fn hex_len(self) -> (len: usize)
        ensures
            len == 2 * self.raw(),
    {
        2 * self.raw_len()
    }

    pub open spec fn spec_name(self) -> Seq<char> {
        match self {
            ObjectFormat::Sha1 => "sha1"@,
            ObjectFormat::Sha256 => "sha256"@,
        }
    }

    pub fn name(self) -> (name: &'static str)
        ensures
            name@ == self.spec_name(),
    {
        match self {
            ObjectFormat::Sha1 => "sha1",
            ObjectFormat::Sha256 => "sha256",
        }
    }
}

/// The name of an object: the digest of its canonical encoding.
///
/// The raw bytes are left-aligned in `bytes`; the bytes past the format's
/// length are zero, so two ids are equal exactly when their formats and raw
/// bytes are.
#[derive(Debug, Clone, Copy, Hash, Eq)]
pub struct ObjectId {
    format: ObjectFormat,
    bytes: [u8; 32],
}

/// Lexicographic order on byte strings: `a` sorts strictly before `b`.
pub open spec fn bytes_less(a: Seq<u8>, b: Seq<u8>) -> bool
    decreases a.len(),
{
    if b.len() == 0 {
        false
    } else if a.len() == 0 {
        true
    } else if a[0] != b[0] {
        a[0] < b[0]
    } else {
        bytes_less(a.drop_first(), b.drop_first())
    }
}

/// `a` sorts strictly before `b` exactly when they agree on some common prefix
/// and then either `a` ends or holds the smaller byte.
pub proof fn lemma_bytes_less_at(a: Seq<u8>, b: Seq<u8>, k: int)
    requires
        0 <= k <= a.len(),
        k <= b.len(),
        forall|i: int| 0 <= i < k ==> a[i] == b[i],
        k < a.len() && k < b.len() ==> a[k] != b[k],
    ensures
        bytes_less(a, b) == (k < b.len() && (k == a.len() || a[k] < b[k])),
    decreases k,
{
    if k > 0 {
        assert(a[0] == b[0]);
        lemma_bytes_less_at(a.drop_first(), b.drop_first(), k - 1);
    }
}

pub proof fn lemma_bytes_less_irreflexive(a: Seq<u8>)
    ensures
        !bytes_less(a, a),
    decreases a.len(),
{
    if a.len() > 0 {
        lemma_bytes_less_irreflexive(a.drop_first());
    }
}

pub proof fn lemma_bytes_less_transitive(a: Seq<u8>, b: Seq<u8>, c: Seq<u8>)
    requires
        bytes_less(a, b),
        bytes_less(b, c),
    ensures
        bytes_less(a, c),
    decreases a.len(),
{
    if a.len() > 0 && b.len() > 0 && c.len() > 0 && a[0] == b[0] && b[0] == c[0] {
        lemma_bytes_less_transitive(a.drop_first(), b.drop_first(), c.drop_first());
    }
}

/// Two byte strings neither of which sorts before the other are equal.
pub proof fn lemma_bytes_less_total(a: Seq<u8>, b: Seq<u8>)
    requires
        !bytes_less(a, b),
        !bytes_less(b, a),
    ensures
        a == b,
    decreases a.len(),
{
    if a.len() > 0 && b.len() > 0 {
        lemma_bytes_less_total(a.drop_first(), b.drop_first());
        assert(a =~= seq![a[0]] + a.drop_first());
        assert(b =~= seq![b[0]] + b.drop_first());
    } else {
        assert(a =~= b);
    }
}

/// Whether byte string `a` sorts strictly before `b`.
pub fn byte_slice_less(a: &[u8], b: &[u8]) -> (less: bool)
    ensures
        less == bytes_less(a@, b@),
{
    let mut k: usize = 0;
    while k < a.len() && k < b.len() && a[k] == b[k]
        invariant
            k <= a@.len(),
            k <= b@.len(),
            forall|i: int| 0 <= i < k ==> a@[i] == b@[i],
        decreases a@.len() - k,
    {
        k += 1;
    }
    proof {
        lemma_bytes_less_at(a@, b@, k as int);
    }
    k < b.len() && (k == a.len() || a[k] < b[k])
}

/// Whether two byte strings are the same.
pub fn byte_slice_eq(a: &[u8], b: &[u8]) -> (same: bool)
    ensures
        same == (a@ == b@),
{
    if a.len() != b.len() {
        return false;
    }
    let mut k: usize = 0;
    while k < a.len()
        invariant
            k <= a@.len(),
            a@.len() == b@.len(),
            forall|i: int| 0 <= i < k ==> a@[i] == b@[i],
        decreases a@.len() - k,
    {
        if a[k] != b[k] {
            assert(a@[k as int] != b@[k as int]);
            return false;
        }
        k += 1;
    }
    assert(a@ =~= b@);
    true
}

/// A fresh vector with the bytes of `a`.
pub fn copy_bytes(a: &[u8]) -> (out: Vec<u8>)
    ensures
        out@ == a@,
{
    let mut out: Vec<u8> = Vec::with_capacity(a.len());
    let mut k: usize = 0;
    while k < a.len()
        invariant
            k <= a@.len(),
            out@ == a@.take(k as int),
        decreases a@.len() - k,
    {
        out.push(a[k]);
        assert(a@.take(k + 1) =~= a@.take(k as int).push(a@[k as int]));
        k += 1;
    }
    assert(a@.take(k as int) =~= a@);
    out
}

impl ObjectId {
    #[verifier::type_invariant]
    closed spec fn padded(self) -> bool {
        forall|i: int| self.format.raw() <= i < 32 ==> self.bytes@[i] == 0u8
    }

    pub closed spec fn spec_format(self) -> ObjectFormat {
        self.format
    }

    /// The raw bytes of the id.
    pub closed spec fn raw(self) -> Seq<u8> {
        self.bytes@.take(self.format.raw() as int)
    }

    /// The order in which index files list ids.
    pub open spec fn less(self, other: ObjectId) -> bool {
        bytes_less(self.raw(), other.raw())
    }

    pub fn format(&self) -> (format: ObjectFormat)
        ensures
            format == self.spec_format(),
    {
        self.format
    }

    /// The id of `format` whose raw bytes are `raw`; `None` when the length is
    /// not the format's.
    pub fn from_raw(format: ObjectFormat, raw: &[u8]) -> (oid: Option<ObjectId>)
        ensures
            oid is Some <==> raw@.len() == format.raw(),
            oid matches Some(oid) ==> oid.spec_format() == format && oid.raw() == raw@,
    {
        if raw.len() != format.raw_len() {
            return None;
        }
        let mut bytes: [u8; 32] = [0u8; 32];
        let mut k: usize = 0;
        while k < raw.len()
            invariant
                k <= raw@.len() <= 32,
                forall|i: int| 0 <= i < k ==> bytes@[i] == raw@[i],
                forall|i: int| k <= i < 32 ==> bytes@[i] == 0u8,
            decreases raw@.len() - k,
        {
            bytes[k] = raw[k];
            k += 1;
        }
        let oid = ObjectId { format, bytes };
        assert(oid.raw() =~= raw@);
        Some(oid)
    }

    /// The all-zero id.
    pub fn null(format: ObjectFormat) -> (oid: ObjectId)
        ensures
            oid.spec_format() == format,
            oid.raw() == Seq::new(format.raw(), |i: int| 0u8),
    {
        let oid = ObjectId { format, bytes: [0u8; 32] };
        assert(oid.raw() =~= Seq::new(format.raw(), |i: int| 0u8));
        oid
    }

    /// The raw bytes of the id.
    pub fn as_bytes(&self) -> (raw: Vec<u8>)
        ensures
            raw@ == self.raw(),
            raw@.len() == self.spec_format().raw(),
    {
        let len: usize = self.format.raw_len();
        let mut out: Vec<u8> = Vec::with_capacity(len);
        let mut k: usize = 0;
        while k < len
            invariant
                k <= len <= 32,
                out@ == self.bytes@.take(k as int),
            decreases len - k,
        {
            out.push(self.bytes[k]);
            assert(self.bytes@.take(k + 1) =~= self.bytes@.take(k as int).push(self.bytes@[k as int]));
            k += 1;
        }
        out
    }

    /// The raw byte at position `i`.
    pub fn byte_at(&self, i: usize) -> (byte: u8)
        requires
            i < self.spec_format().raw(),
        ensures
            byte == self.raw()[i as int],
    {
        self.bytes[i]
    }

    /// The leading eight bytes of the id as one number.
    pub closed spec fn spec_key(self) -> u64 {
        ((self.bytes@[0] as u64) << 56u64) | ((self.bytes@[1] as u64) << 48u64)
            | ((self.bytes@[2] as u64) << 40u64) | ((self.bytes@[3] as u64) << 32u64)
            | ((self.bytes@[4] as u64) << 24u64) | ((self.bytes@[5] as u64) << 16u64)
            | ((self.bytes@[6] as u64) << 8u64) | (self.bytes@[7] as u64)
    }

    /// The leading eight bytes of the id as one number, by which lookup tables
    /// group ids.
    pub fn key(&self) -> (key: u64)
        ensures
            key == self.spec_key(),
    {
        ((self.bytes[0] as u64) << 56u64) | ((self.bytes[1] as u64) << 48u64)
            | ((self.bytes[2] as u64) << 40u64) | ((self.bytes[3] as u64) << 32u64)
            | ((self.bytes[4] as u64) << 24u64) | ((self.bytes[5] as u64) << 16u64)
            | ((self.bytes[6] as u64) << 8u64) | (self.bytes[7] as u64)
    }

    /// The lower-case hexadecimal form of the id.
    pub fn to_hex(&self) -> (text: String)
        ensures
            text@ == hex(self.raw()),
            text@.len() == 2 * self.spec_format().raw(),
    {
        let raw = self.as_bytes();
        hex_text(&raw)
    }

    /// Whether this id is `other`: their formats and raw bytes are the same.
    pub fn same(&self, other: &ObjectId) -> (same: bool)
        ensures
            same == (*self == *other),
            same == (self.spec_format() == other.spec_format() && self.raw() == other.raw()),
    {
        let less = self.is_less(other);
        let greater = other.is_less(self);
        proof {
            lemma_bytes_less_irreflexive(self.raw());
            if !less && !greater {
                lemma_bytes_less_total(self.raw(), other.raw());
            }
        }
        !less && !greater
    }

    /// Whether this id sorts strictly before `other` in an index.
    pub fn is_less(&self, other: &ObjectId) -> (less: bool)
        ensures
            less == self.less(*other),
            !less && !other.less(*self) ==> *self == *other,
    {
        proof {
            use_type_invariant(self);
            use_type_invariant(other);
        }
        let a_len: usize = self.format.raw_len();
        let b_len: usize = other.format.raw_len();
        let mut k: usize = 0;
        while k < a_len && k < b_len && self.bytes[k] == other.bytes[k]
            invariant
                k <= a_len <= 32,
                k <= b_len <= 32,
                forall|i: int| 0 <= i < k ==> self.bytes@[i] == other.bytes@[i],
            decreases a_len - k,
        {
            k += 1;
        }
        proof {
            lemma_bytes_less_at(self.raw(), other.raw(), k as int);
            if !bytes_less(self.raw(), other.raw()) && !bytes_less(other.raw(), self.raw()) {
                lemma_bytes_less_total(self.raw(), other.raw());
                assert(self.raw().len() == a_len && other.raw().len() == b_len);
                assert forall|i: int| 0 <= i < 32 implies self.bytes@[i] == other.bytes@[i] by {
                    if i < a_len {
                        assert(self.raw()[i] == other.raw()[i]);
                    }
                }
                assert(self.bytes@ =~= other.bytes@);
                assert(self.bytes =~= other.bytes);
            }
        }
        k < b_len && (k == a_len || self.bytes[k] < other.bytes[k])
    }
}

/// Every byte string of length `len`.
spec fn strings_of_len(len: nat) -> Set<Seq<u8>> {
    Set::new(|s: Seq<u8>| s.len() == len)
}

proof fn lemma_strings_of_len_finite(len: nat)
    ensures
        strings_of_len(len).finite(),
    decreases len,
{
    if len == 0 {
        assert forall|s: Seq<u8>| s.len() == 0 implies s == Seq::<u8>::empty() by {
            assert(s =~= Seq::<u8>::empty());
        }
        assert(strings_of_len(0) =~= set![Seq::<u8>::empty()]);
    } else {
        let shorter = strings_of_len((len - 1) as nat);
        lemma_strings_of_len_finite((len - 1) as nat);
        let extend = |b: int| shorter.map(|s: Seq<u8>| s.push(b as u8));
        let bytes = vstd::set_lib::set_int_range(0, 256);
        vstd::set_lib::lemma_int_range(0, 256);
        bytes.lemma_map_finite(extend);
        let families = bytes.map(extend);
        assert forall|family: Set<Seq<u8>>| families.contains(family) implies #[trigger] family.finite() by {
            let b = choose|b: int| bytes.contains(b) && extend(b) == family;
            shorter.lemma_map_finite(|s: Seq<u8>| s.push(b as u8));
        }
        families.lemma_flatten_finite();
        assert forall|s: Seq<u8>| strings_of_len(len).contains(s) implies families.flatten().contains(s) by {
            let b = s.last() as int;
            assert(bytes.contains(b));
            assert(families.contains(extend(b)));
            assert(shorter.contains(s.drop_last()));
            assert(s.drop_last().push(b as u8) =~= s);
            assert(extend(b).contains(s));
        }
        vstd::set_lib::lemma_len_subset(strings_of_len(len), families.flatten());
    }
}

/// Every object id.
pub open spec fn all_ids() -> Set<ObjectId> {
    Set::full()
}

/// There are finitely many object ids.
pub proof fn lemma_all_ids_finite()
    ensures
        all_ids().finite(),
{
    lemma_strings_of_len_finite(32);
    let strings = strings_of_len(32);
    let of_format = |format: ObjectFormat|
        strings.map(|s: Seq<u8>| (choose|oid: ObjectId| oid.format == format && oid.bytes@ == s));
    strings.lemma_map_finite(
        |s: Seq<u8>| (choose|oid: ObjectId| oid.format == ObjectFormat::Sha1 && oid.bytes@ == s),
    );
    strings.lemma_map_finite(
        |s: Seq<u8>| (choose|oid: ObjectId| oid.format == ObjectFormat::Sha256 && oid.bytes@ == s),
    );
    let both = of_format(ObjectFormat::Sha1).union(of_format(ObjectFormat::Sha256));
    assert forall|oid: ObjectId| all_ids().contains(oid) implies both.contains(oid) by {
        let pick = choose|other: ObjectId| other.format == oid.format && other.bytes@ == oid.bytes@;
        assert(pick.bytes =~= oid.bytes);
        assert(pick == oid);
        assert(strings.contains(oid.bytes@));
        assert(of_format(oid.format).contains(oid));
    }
    vstd::set_lib::lemma_len_subset(all_ids(), both);
}

impl PartialEq for ObjectId {
    fn eq(&self, other: &Self) -> (same: bool) {
        if self.format != other.format {
            return false;
        }
        let mut k: usize = 0;
        while k < 32
            invariant
                k <= 32,
                forall|i: int| 0 <= i < k ==> self.bytes@[i] == other.bytes@[i],
            decreases 32 - k,
        {
            if self.bytes[k] != other.bytes[k] {
                return false;
            }
            k += 1;
        }
        assert(self.bytes@ =~= other.bytes@);
        assert(self.bytes =~= other.bytes);
        true
    }
}

impl vstd::std_specs::cmp::PartialEqSpecImpl for ObjectId {
    open spec fn obeys_eq_spec() -> bool {
        true
    }

    open spec fn eq_spec(&self, other: &Self) -> bool {
        *self == *other
    }
}

} // verus!
