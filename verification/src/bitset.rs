//! Bitsets over 64-bit words: bit `i` lives in word `i / 64` at bit `i % 64`,
//! the lowest bit of a word first.

use vstd::prelude::*;

verus! {

/// Whether bit `b` of a word is set.
pub open spec fn word_bit(word: u64, b: u64) -> bool {
    word & (1u64 << b) != 0
}

/// Whether bit `p` of a bitset is set. Bits behind the last word are not.
pub open spec fn bit(words: Seq<u64>, p: int) -> bool {
    0 <= p && p / 64 < words.len() && word_bit(words[p / 64], (p % 64) as u64)
}

/// The bits that are set.
pub open spec fn bits(words: Seq<u64>) -> Set<int> {
    Set::new(|p: int| bit(words, p))
}

proof fn lemma_set_bit(word: u64, a: u64, b: u64)
    by (bit_vector)
    requires
        a < 64,
        b < 64,
    ensures
        ((word | (1u64 << a)) & (1u64 << b) != 0) <==> (a == b || word & (1u64 << b) != 0),
{
}

proof fn lemma_zero_bit(b: u64)
    by (bit_vector)
    ensures
        0u64 & (1u64 << b) == 0,
{
}

proof fn lemma_or_bit(v: u64, w: u64, b: u64)
    by (bit_vector)
    ensures
        ((v | w) & (1u64 << b) != 0) <==> (v & (1u64 << b) != 0 || w & (1u64 << b) != 0),
{
}

pub proof fn lemma_xor_bit(v: u64, w: u64, b: u64)
    by (bit_vector)
    requires
        b < 64,
    ensures
        ((v ^ w) & (1u64 << b) != 0) <==> ((v & (1u64 << b) != 0) != (w & (1u64 << b) != 0)),
{
}

proof fn lemma_and_not_bit(v: u64, w: u64, b: u64)
    by (bit_vector)
    requires
        b < 64,
    ensures
        ((v & !w) & (1u64 << b) != 0) <==> (v & (1u64 << b) != 0 && w & (1u64 << b) == 0),
{
}

/// A word with a bit set is not zero, and the other way round.
proof fn lemma_some_bit(word: u64)
    ensures
        word != 0 <==> exists|b: u64| b < 64 && #[trigger] word_bit(word, b),
    decreases word,
{
    if word != 0 {
        if word & 1 != 0 {
            assert(word & 1 != 0 ==> word & (1u64 << 0) != 0) by (bit_vector);
            assert(word_bit(word, 0));
        } else {
            let half = word >> 1;
            assert(word != 0 && word & 1 == 0 ==> (word >> 1) != 0 && (word >> 1) < word) by (bit_vector);
            lemma_some_bit(half);
            let b = choose|b: u64| b < 64 && #[trigger] word_bit(half, b);
            assert(half == word >> 1 && b < 64 && half & (1u64 << b) != 0 ==> b < 63 && word & (1u64 << (
            b + 1) as u64) != 0) by (bit_vector);
            assert(word_bit(word, (b + 1) as u64));
        }
    } else {
        assert forall|b: u64| b < 64 implies !#[trigger] word_bit(word, b) by {
            lemma_zero_bit(b);
        }
    }
}

/// Whether bit `position` is set.
pub fn bitset_get(words: &[u64], position: u32) -> (set: bool)
    ensures
        set == bit(words@, position as int),
{
    let word: usize = (position / 64) as usize;
    word < words.len() && words[word] & (1u64 << ((position % 64) as u64)) != 0
}

/// Sets bit `position`, if the bitset has room for it.
pub fn bitset_set(words: &mut Vec<u64>, position: u32)
    ensures
        final(words)@.len() == old(words)@.len(),
        position < 64 * old(words)@.len() ==> bits(final(words)@) == bits(old(words)@).insert(
            position as int,
        ),
        position >= 64 * old(words)@.len() ==> final(words)@ == old(words)@,
{
    let word: usize = (position / 64) as usize;
    if word < words.len() {
        let b: u64 = (position % 64) as u64;
        let value: u64 = words[word] | (1u64 << b);
        words.set(word, value);
        proof {
            let before = old(words)@;
            assert forall|p: int| bits(words@).contains(p) == bits(before).insert(position as int).contains(
                p,
            ) by {
                if 0 <= p && p / 64 == word {
                    lemma_set_bit(before[word as int], b, (p % 64) as u64);
                }
            }
            assert(bits(words@) =~= bits(before).insert(position as int));
        }
    }
}

/// Adds the bits of `other`, as far as `acc` has room for them.
pub fn bitset_or(acc: &mut Vec<u64>, other: &[u64])
    ensures
        final(acc)@.len() == old(acc)@.len(),
        forall|p: int|
            0 <= p < 64 * old(acc)@.len() ==> (#[trigger] bit(final(acc)@, p) <==> bit(old(acc)@, p) || bit(
                other@,
                p,
            )),
        other@.len() <= old(acc)@.len() ==> bits(final(acc)@) == bits(old(acc)@).union(bits(other@)),
{
    let mut i: usize = 0;
    while i < acc.len() && i < other.len()
        invariant
            acc@.len() == old(acc)@.len(),
            i <= acc@.len(),
            i <= other@.len(),
            forall|k: int| 0 <= k < i ==> acc@[k] == old(acc)@[k] | other@[k],
            forall|k: int| i <= k < acc@.len() ==> acc@[k] == old(acc)@[k],
        decreases acc@.len() - i,
    {
        let value: u64 = acc[i] | other[i];
        acc.set(i, value);
        i += 1;
    }
    proof {
        assert forall|p: int| 0 <= p < 64 * old(acc)@.len() implies (#[trigger] bit(acc@, p) <==> bit(
            old(acc)@,
            p,
        ) || bit(other@, p)) by {
            if p / 64 < other@.len() {
                lemma_or_bit(old(acc)@[p / 64], other@[p / 64], (p % 64) as u64);
            }
        }
        if other@.len() <= old(acc)@.len() {
            assert forall|p: int| bits(acc@).contains(p) == bits(old(acc)@).union(bits(other@)).contains(p) by {
                if 0 <= p < 64 * old(acc)@.len() {
                    assert(bit(acc@, p) <==> bit(old(acc)@, p) || bit(other@, p));
                }
            }
            assert(bits(acc@) =~= bits(old(acc)@).union(bits(other@)));
        }
    }
}

/// The words of `a`, each combined by exclusive or with that of `b`, if any.
pub open spec fn xor_words(a: Seq<u64>, b: Seq<u64>) -> Seq<u64> {
    Seq::new(
        a.len(),
        |i: int|
            if i < b.len() {
                a[i] ^ b[i]
            } else {
                a[i]
            },
    )
}

/// Flips the bits of `acc` that are set in `other`.
pub fn bitset_xor(acc: &mut Vec<u64>, other: &[u64])
    ensures
        final(acc)@ == xor_words(old(acc)@, other@),
        final(acc)@.len() == old(acc)@.len(),
        forall|p: int|
            0 <= p < 64 * old(acc)@.len() ==> (#[trigger] bit(final(acc)@, p) <==> bit(old(acc)@, p) != bit(
                other@,
                p,
            )),
{
    let mut i: usize = 0;
    while i < acc.len() && i < other.len()
        invariant
            acc@.len() == old(acc)@.len(),
            i <= acc@.len(),
            i <= other@.len(),
            forall|k: int| 0 <= k < i ==> acc@[k] == old(acc)@[k] ^ other@[k],
            forall|k: int| i <= k < acc@.len() ==> acc@[k] == old(acc)@[k],
        decreases acc@.len() - i,
    {
        let value: u64 = acc[i] ^ other[i];
        acc.set(i, value);
        i += 1;
    }
    assert(acc@ =~= xor_words(old(acc)@, other@));
    proof {
        assert forall|p: int| 0 <= p < 64 * old(acc)@.len() implies (#[trigger] bit(acc@, p) <==> bit(
            old(acc)@,
            p,
        ) != bit(other@, p)) by {
            if p / 64 < other@.len() {
                lemma_xor_bit(old(acc)@[p / 64], other@[p / 64], (p % 64) as u64);
            }
        }
    }
}

/// Takes the bits of `other` out of `acc`.
pub fn bitset_and_not(acc: &mut Vec<u64>, other: &[u64])
    ensures
        final(acc)@.len() == old(acc)@.len(),
        bits(final(acc)@) == bits(old(acc)@).difference(bits(other@)),
{
    let mut i: usize = 0;
    while i < acc.len() && i < other.len()
        invariant
            acc@.len() == old(acc)@.len(),
            i <= acc@.len(),
            i <= other@.len(),
            forall|k: int| 0 <= k < i ==> acc@[k] == old(acc)@[k] & !other@[k],
            forall|k: int| i <= k < acc@.len() ==> acc@[k] == old(acc)@[k],
        decreases acc@.len() - i,
    {
        let value: u64 = acc[i] & !other[i];
        acc.set(i, value);
        i += 1;
    }
    proof {
        assert forall|p: int| bits(acc@).contains(p) == bits(old(acc)@).difference(bits(other@)).contains(p) by {
            if 0 <= p && p / 64 < acc@.len() && p / 64 < other@.len() {
                lemma_and_not_bit(old(acc)@[p / 64], other@[p / 64], (p % 64) as u64);
            }
        }
        assert(bits(acc@) =~= bits(old(acc)@).difference(bits(other@)));
    }
}

/// Whether each bit of `needles` that `haystack` has room for is set there.
pub fn bitset_is_subset(needles: &[u64], haystack: &[u64]) -> (subset: bool)
    ensures
        subset == forall|p: int|
            0 <= p < 64 * haystack@.len() && #[trigger] bit(needles@, p) ==> bit(haystack@, p),
{
    let mut i: usize = 0;
    while i < needles.len() && i < haystack.len()
        invariant
            i <= needles@.len(),
            i <= haystack@.len(),
            forall|p: int| 0 <= p < 64 * i && #[trigger] bit(needles@, p) ==> bit(haystack@, p),
        decreases needles@.len() - i,
    {
        let rest: u64 = needles[i] & !haystack[i];
        proof {
            lemma_some_bit(rest);
        }
        if rest != 0 {
            proof {
                let b = choose|b: u64| b < 64 && #[trigger] word_bit(rest, b);
                lemma_and_not_bit(needles@[i as int], haystack@[i as int], b);
                let p = 64 * i + b;
                assert(p / 64 == i && p % 64 == b);
                assert(bit(needles@, p) && !bit(haystack@, p));
            }
            return false;
        }
        proof {
            assert forall|p: int| 0 <= p < 64 * (i + 1) && #[trigger] bit(needles@, p) implies bit(
                haystack@,
                p,
            ) by {
                if p >= 64 * i {
                    assert(p / 64 == i);
                    lemma_and_not_bit(needles@[i as int], haystack@[i as int], (p % 64) as u64);
                    assert(!word_bit(rest, (p % 64) as u64));
                }
            }
        }
        i += 1;
    }
    true
}

/// The set bits below `n`, in order.
pub open spec fn positions_below(words: Seq<u64>, n: nat) -> Seq<u32>
    decreases n,
{
    if n == 0 {
        Seq::empty()
    } else if bit(words, n - 1) {
        positions_below(words, (n - 1) as nat).push((n - 1) as u32)
    } else {
        positions_below(words, (n - 1) as nat)
    }
}

/// The set bits, in order.
pub open spec fn set_positions(words: Seq<u64>) -> Seq<u32> {
    positions_below(words, 64 * words.len())
}

/// The most words whose bit positions are all 32-bit numbers.
pub const MAX_BITSET_WORDS: usize = 0x400_0000;

/// The set bits of a bitset, in order: what setting each of them again undoes.
pub fn bitset_positions(words: &[u64]) -> (positions: Vec<u32>)
    requires
        words@.len() <= MAX_BITSET_WORDS,
    ensures
        positions@ == set_positions(words@),
{
    let mut positions: Vec<u32> = Vec::new();
    let mut i: usize = 0;
    while i < words.len()
        invariant
            i <= words@.len() <= MAX_BITSET_WORDS,
            positions@ == positions_below(words@, (64 * i) as nat),
        decreases words@.len() - i,
    {
        let word: u64 = words[i];
        let mut b: u64 = 0;
        while b < 64
            invariant
                b <= 64,
                i < words@.len() <= MAX_BITSET_WORDS,
                word == words@[i as int],
                positions@ == positions_below(words@, (64 * i + b) as nat),
            decreases 64 - b,
        {
            if word & (1u64 << b) != 0 {
                positions.push(i as u32 * 64 + b as u32);
            }
            assert((64 * i + b) / 64 == i && (64 * i + b) % 64 == b);
            b += 1;
        }
        i += 1;
    }
    positions
}

proof fn lemma_positions_below(words: Seq<u64>, n: nat)
    requires
        n <= 0x1_0000_0000,
    ensures
        ({
            let positions = positions_below(words, n);
            &&& forall|k: int| 0 <= k < positions.len() ==> 0 <= #[trigger] positions[k] < n && bit(
                words,
                positions[k] as int,
            )
            &&& forall|p: u32| p < n && bit(words, p as int) ==> #[trigger] positions.contains(p)
            &&& forall|i: int, j: int|
                0 <= i < j < positions.len() ==> #[trigger] positions[i] < #[trigger] positions[j]
        }),
    decreases n,
{
    if n > 0 {
        lemma_positions_below(words, (n - 1) as nat);
        let shorter = positions_below(words, (n - 1) as nat);
        let positions = positions_below(words, n);
        assert forall|p: u32| p < n && bit(words, p as int) implies #[trigger] positions.contains(p) by {
            if p == n - 1 {
                assert(positions[positions.len() - 1] == p);
            } else {
                assert(shorter.contains(p));
                let k = choose|k: int| 0 <= k < shorter.len() && shorter[k] == p;
                assert(positions[k] == p);
            }
        }
    }
}

/// The positions listed for a bitset are those of its bits, each once, in
/// ascending order.
pub proof fn law_positions_are_the_bits(words: Seq<u64>)
    requires
        words.len() <= MAX_BITSET_WORDS,
    ensures
        forall|p: u32| #[trigger] set_positions(words).contains(p) <==> bits(words).contains(p as int),
        forall|i: int, j: int|
            0 <= i < j < set_positions(words).len() ==> #[trigger] set_positions(words)[i]
                < #[trigger] set_positions(words)[j],
{
    lemma_positions_below(words, 64 * words.len());
}

/// The number of words that hold `n` bits.
pub open spec fn words_for(n: nat) -> nat {
    (n + 63) / 64
}

/// The number of words that hold `n` bits.
pub fn word_count_for(n: usize) -> (count: usize)
    ensures
        count == words_for(n as nat),
        64 * count >= n,
{
    if n % 64 == 0 {
        n / 64
    } else {
        n / 64 + 1
    }
}

/// A bitset of `count` words with no bit set.
pub fn empty_bitset(count: usize) -> (words: Vec<u64>)
    ensures
        words@.len() == count,
        bits(words@) == Set::<int>::empty(),
{
    let mut words: Vec<u64> = Vec::with_capacity(count);
    let mut i: usize = 0;
    while i < count
        invariant
            i <= count,
            words@.len() == i,
            forall|k: int| 0 <= k < i ==> words@[k] == 0,
        decreases count - i,
    {
        words.push(0);
        i += 1;
    }
    proof {
        assert forall|p: int| !bits(words@).contains(p) by {
            lemma_zero_bit((p % 64) as u64);
        }
        assert(bits(words@) =~= Set::<int>::empty());
    }
    words
}

/// `words` cut or filled up with empty words to `count` of them.
pub open spec fn resized(words: Seq<u64>, count: nat) -> Seq<u64> {
    Seq::new(
        count,
        |i: int|
            if i < words.len() {
                words[i]
            } else {
                0u64
            },
    )
}

/// `words` cut or filled up with empty words to `count` of them.
pub fn resize_bitset(words: &[u64], count: usize) -> (out: Vec<u64>)
    ensures
        out@ == resized(words@, count as nat),
{
    let mut out: Vec<u64> = Vec::with_capacity(count);
    let mut i: usize = 0;
    while i < count
        invariant
            i <= count,
            out@.len() == i,
            forall|k: int| 0 <= k < i ==> out@[k] == resized(words@, count as nat)[k],
        decreases count - i,
    {
        if i < words.len() {
            out.push(words[i]);
        } else {
            out.push(0);
        }
        i += 1;
    }
    assert(out@ =~= resized(words@, count as nat));
    out
}

} // verus!
