//! Text building: concatenation, decimal and hexadecimal digits.

use vstd::prelude::*;
use vstd::string::*;

verus! {

/// The lower-case digit of value `d`, for `d` below sixteen.
pub open spec fn digit_byte(d: int) -> u8 {
    if d < 10 {
        (48 + d) as u8
    } else {
        (87 + d) as u8
    }
}

/// The lower-case digit of value `d`, for `d` below sixteen.
pub open spec fn digit_char(d: int) -> char {
    digit_byte(d) as char
}

/// The decimal digits of `n`, most significant first.
pub open spec fn decimal_bytes(n: nat) -> Seq<u8>
    decreases n,
{
    if n < 10 {
        seq![digit_byte(n as int)]
    } else {
        decimal_bytes(n / 10).push(digit_byte((n % 10) as int))
    }
}

/// The decimal form of `n`.
pub open spec fn decimal(n: nat) -> Seq<char>
    decreases n,
{
    if n < 10 {
        seq![digit_char(n as int)]
    } else {
        decimal(n / 10).push(digit_char((n % 10) as int))
    }
}

/// The lower-case hexadecimal form of a byte string.
pub open spec fn hex(bytes: Seq<u8>) -> Seq<char> {
    Seq::new(
        2 * bytes.len(),
        |i: int|
            if i % 2 == 0 {
                digit_char(bytes[i / 2] as int / 16)
            } else {
                digit_char(bytes[i / 2] as int % 16)
            },
    )
}

fn digit_text(d: u8) -> (text: &'static str)
    requires
        d < 16,
    ensures
        text@ == seq![digit_char(d as int)],
{
    proof {
        reveal_strlit("0");
        reveal_strlit("1");
        reveal_strlit("2");
        reveal_strlit("3");
        reveal_strlit("4");
        reveal_strlit("5");
        reveal_strlit("6");
        reveal_strlit("7");
        reveal_strlit("8");
        reveal_strlit("9");
        reveal_strlit("a");
        reveal_strlit("b");
        reveal_strlit("c");
        reveal_strlit("d");
        reveal_strlit("e");
        reveal_strlit("f");
    }
    let text = match d {
        0 => "0",
        1 => "1",
        2 => "2",
        3 => "3",
        4 => "4",
        5 => "5",
        6 => "6",
        7 => "7",
        8 => "8",
        9 => "9",
        10 => "a",
        11 => "b",
        12 => "c",
        13 => "d",
        14 => "e",
        _ => "f",
    };
    assert(text@ =~= seq![digit_char(d as int)]);
    text
}

/// The decimal form of `n`.
pub fn decimal_text(n: u64) -> (text: String)
    ensures
        text@ == decimal(n as nat),
    decreases n,
{
    if n < 10 {
        String::from_str(digit_text(n as u8))
    } else {
        let mut text = decimal_text(n / 10);
        text.append(digit_text((n % 10) as u8));
        assert(text@ =~= decimal((n / 10) as nat).push(digit_char((n % 10) as int)));
        text
    }
}

/// The decimal digits of `n` as bytes.
pub fn decimal_digits(n: u64) -> (digits: Vec<u8>)
    ensures
        digits@ == decimal_bytes(n as nat),
    decreases n,
{
    let d: u8 = (n % 10) as u8;
    let digit: u8 = 48 + d;
    if n < 10 {
        let mut digits: Vec<u8> = Vec::new();
        digits.push(digit);
        assert(digits@ =~= decimal_bytes(n as nat));
        digits
    } else {
        let mut digits = decimal_digits(n / 10);
        digits.push(digit);
        digits
    }
}

/// The lower-case hexadecimal form of `bytes`.
pub fn hex_text(bytes: &[u8]) -> (text: String)
    ensures
        text@ == hex(bytes@),
{
    let mut text = String::new();
    let mut k: usize = 0;
    while k < bytes.len()
        invariant
            k <= bytes@.len(),
            text@ == hex(bytes@.take(k as int)),
        decreases bytes@.len() - k,
    {
        let high: u8 = bytes[k] / 16;
        let low: u8 = bytes[k] % 16;
        text.append(digit_text(high));
        text.append(digit_text(low));
        proof {
            let next = bytes@.take(k + 1);
            assert(next[k as int] == bytes@[k as int]);
            assert forall|i: int| 0 <= i < 2 * (k + 1) implies text@[i] == hex(next)[i] by {
                if i < 2 * k {
                    assert(bytes@.take(k as int)[i / 2] == next[i / 2]);
                } else {
                    assert(i / 2 == k);
                }
            }
            assert(text@ =~= hex(next));
        }
        k += 1;
    }
    assert(bytes@.take(k as int) =~= bytes@);
    text
}

/// `first` followed by `second`.
pub fn concat2(first: &str, second: &str) -> (text: String)
    ensures
        text@ == first@ + second@,
{
    let mut text = String::from_str(first);
    text.append(second);
    text
}

/// `first`, `second` and `third` in a row.
pub fn concat3(first: &str, second: &str, third: &str) -> (text: String)
    ensures
        text@ == first@ + second@ + third@,
{
    let mut text = concat2(first, second);
    text.append(third);
    text
}

/// Whether two texts are the same.
pub fn text_eq(a: &str, b: &str) -> (same: bool)
    ensures
        same == (a@ == b@),
{
    String::from_str(a) == String::from_str(b)
}

/// Whether `text` starts with `prefix`.
pub open spec fn has_prefix(text: Seq<char>, prefix: Seq<char>) -> bool {
    prefix.len() <= text.len() && text.take(prefix.len() as int) == prefix
}

/// Whether `text` ends in `suffix`.
pub open spec fn has_suffix(text: Seq<char>, suffix: Seq<char>) -> bool {
    suffix.len() <= text.len() && text.skip(text.len() - suffix.len()) == suffix
}

/// Whether `text` starts with `prefix`.
pub fn starts_with(text: &str, prefix: &str) -> (starts: bool)
    ensures
        starts == has_prefix(text@, prefix@),
{
    let n: usize = prefix.unicode_len();
    if text.unicode_len() < n {
        return false;
    }
    let head = text.substring_char(0, n);
    assert(head@ =~= text@.take(n as int));
    text_eq(head, prefix)
}

/// What stands before `suffix` at the end of `text`.
pub fn strip_suffix(text: &str, suffix: &str) -> (stem: Option<String>)
    ensures
        stem is Some <==> has_suffix(text@, suffix@),
        stem matches Some(stem) ==> text@ == stem@ + suffix@,
{
    let n: usize = suffix.unicode_len();
    let len: usize = text.unicode_len();
    if len < n {
        return None;
    }
    let tail = text.substring_char(len - n, len);
    assert(tail@ =~= text@.skip(len - n));
    if !text_eq(tail, suffix) {
        return None;
    }
    let stem = text.substring_char(0, len - n);
    assert(text@ =~= stem@ + suffix@);
    Some(String::from_str(stem))
}

/// Whether all bytes are decimal digits.
pub open spec fn all_digits(bytes: Seq<u8>) -> bool {
    forall|i: int| 0 <= i < bytes.len() ==> 48 <= #[trigger] bytes[i] <= 57
}

/// The number that decimal digits spell.
pub open spec fn decimal_value(bytes: Seq<u8>) -> nat
    decreases bytes.len(),
{
    if bytes.len() == 0 {
        0
    } else {
        (10 * decimal_value(bytes.drop_last()) + (bytes.last() - 48)) as nat
    }
}

proof fn lemma_decimal_prefix(bytes: Seq<u8>, n: int)
    requires
        all_digits(bytes),
        0 <= n <= bytes.len(),
    ensures
        decimal_value(bytes.take(n)) <= decimal_value(bytes),
    decreases bytes.len() - n,
{
    if n < bytes.len() {
        lemma_decimal_prefix(bytes, n + 1);
        assert(bytes.take(n + 1).drop_last() =~= bytes.take(n));
        assert(bytes.take(n + 1).last() == bytes[n]);
    } else {
        assert(bytes.take(n) =~= bytes);
    }
}

/// The number that the bytes from `from` on spell in decimal digits, if they do
/// and it fits.
pub fn parse_digits(bytes: &[u8], from: usize) -> (value: Option<u64>)
    requires
        from <= bytes@.len(),
    ensures
        ({
            let digits = bytes@.skip(from as int);
            &&& value is Some <==> digits.len() > 0 && all_digits(digits) && decimal_value(digits) <= u64::MAX
            &&& value matches Some(value) ==> value == decimal_value(digits)
        }),
{
    let ghost digits = bytes@.skip(from as int);
    if from == bytes.len() {
        return None;
    }
    let mut value: u64 = 0;
    let mut i: usize = from;
    assert(digits.take(0) =~= Seq::empty());
    while i < bytes.len()
        invariant
            from <= i <= bytes@.len(),
            digits == bytes@.skip(from as int),
            all_digits(digits.take(i - from)),
            value == decimal_value(digits.take(i - from)),
        decreases bytes@.len() - i,
    {
        let byte: u8 = bytes[i];
        assert(digits[i - from] == byte);
        assert(digits.take(i - from + 1).drop_last() =~= digits.take(i - from));
        if byte < 48 || byte > 57 {
            return None;
        }
        proof {
            assert forall|k: int| 0 <= k < i - from + 1 implies 48 <= #[trigger] digits.take(i - from + 1)[k] <= 57 by {
                if k < i - from {
                    assert(digits.take(i - from)[k] == digits[k]);
                }
            }
            if all_digits(digits) {
                lemma_decimal_prefix(digits, i - from + 1);
            }
        }
        match value.checked_mul(10) {
            None => {
                return None;
            },
            Some(scaled) => match scaled.checked_add((byte - 48) as u64) {
                None => {
                    return None;
                },
                Some(next) => {
                    value = next;
                },
            },
        }
        i += 1;
    }
    assert(digits.take(i - from) =~= digits);
    Some(value)
}

/// The number that bytes spell in decimal digits behind an optional sign.
pub open spec fn signed_value(bytes: Seq<u8>) -> Option<int> {
    if bytes.len() > 0 && (bytes[0] == 43 || bytes[0] == 45) {
        let digits = bytes.skip(1);
        if digits.len() > 0 && all_digits(digits) {
            if bytes[0] == 45 {
                Some(-(decimal_value(digits) as int))
            } else {
                Some(decimal_value(digits) as int)
            }
        } else {
            None
        }
    } else if bytes.len() > 0 && all_digits(bytes) {
        Some(decimal_value(bytes) as int)
    } else {
        None
    }
}

/// The number that bytes spell in decimal digits behind an optional sign, if
/// they do and it fits.
pub fn parse_i64(bytes: &[u8]) -> (value: Option<i64>)
    ensures
        value == match signed_value(bytes@) {
            Some(value) => if i64::MIN <= value <= i64::MAX {
                Some(value as i64)
            } else {
                None
            },
            None => None,
        },
{
    if bytes.len() == 0 {
        return None;
    }
    assert(bytes@.skip(0) =~= bytes@);
    let negative = bytes[0] == 45;
    let from: usize = if negative || bytes[0] == 43 {
        1
    } else {
        0
    };
    match parse_digits(bytes, from) {
        None => None,
        Some(magnitude) => {
            if negative {
                if magnitude < 0x8000_0000_0000_0000 {
                    Some(-(magnitude as i64))
                } else if magnitude == 0x8000_0000_0000_0000 {
                    Some(i64::MIN)
                } else {
                    None
                }
            } else if magnitude <= 0x7fff_ffff_ffff_ffff {
                Some(magnitude as i64)
            } else {
                None
            }
        },
    }
}

} // verus!
