//! Text as the catalog uses it: equality and order of identifiers, and
//! decimal integers.

use vstd::prelude::*;
use vstd::string::StringSliceAdditionalSpecFns;
use vstd::utf8::{decode_utf8, encode_utf8};

verus! {

/// Whether two strings are the same sequence of characters.
pub fn same_text(a: &str, b: &str) -> (r: bool)
    ensures
        r == (a@ == b@),
{
    broadcast use vstd::utf8::encode_utf8_decode_utf8;

    let x = a.as_bytes();
    let y = b.as_bytes();
    if x.len() != y.len() {
        return false;
    }
    let mut i: usize = 0;
    while i < x.len()
        invariant
            x@ == encode_utf8(a@),
            y@ == encode_utf8(b@),
            x@.len() == y@.len(),
            i <= x@.len(),
            forall|j: int| 0 <= j < i ==> x@[j] == y@[j],
        decreases x.len() - i,
    {
        if x[i] != y[i] {
            return false;
        }
        i += 1;
    }
    assert(x@ =~= y@);
    assert(decode_utf8(encode_utf8(a@)) == decode_utf8(encode_utf8(b@)));
    true
}

/// Byte-wise lexicographic order from position `from` on: `a` comes strictly
/// before `b`.
pub open spec fn bytes_before(a: Seq<u8>, b: Seq<u8>, from: int) -> bool
    decreases a.len() - from,
{
    if from < 0 || from >= b.len() {
        false
    } else if from >= a.len() {
        true
    } else if a[from] != b[from] {
        a[from] < b[from]
    } else {
        bytes_before(a, b, from + 1)
    }
}

/// The order of identifiers: that of strings, which compares their UTF-8
/// bytes.
pub open spec fn id_before(a: Seq<char>, b: Seq<char>) -> bool {
    bytes_before(encode_utf8(a), encode_utf8(b), 0)
}

/// Whether `a` sorts strictly before `b` as a string.
pub fn comes_before(a: &str, b: &str) -> (r: bool)
    ensures
        r == id_before(a@, b@),
{
    let x = a.as_bytes();
    let y = b.as_bytes();
    let mut i: usize = 0;
    while i < x.len() && i < y.len()
        invariant
            x@ == encode_utf8(a@),
            y@ == encode_utf8(b@),
            i <= x.len(),
            i <= y.len(),
            bytes_before(x@, y@, 0) == bytes_before(x@, y@, i as int),
        decreases x.len() - i,
    {
        if x[i] != y[i] {
            return x[i] < y[i];
        }
        i += 1;
    }
    i < y.len()
}

/// Byte order is asymmetric.
pub proof fn lemma_before_asymmetric(a: Seq<u8>, b: Seq<u8>, from: int)
    requires
        0 <= from,
        bytes_before(a, b, from),
    ensures
        !bytes_before(b, a, from),
    decreases a.len() - from,
{
    if from < a.len() && from < b.len() && a[from] == b[from] {
        lemma_before_asymmetric(a, b, from + 1);
    }
}

/// Byte order is transitive.
pub proof fn lemma_before_transitive(a: Seq<u8>, b: Seq<u8>, c: Seq<u8>, from: int)
    requires
        0 <= from,
        bytes_before(a, b, from),
        bytes_before(b, c, from),
    ensures
        bytes_before(a, c, from),
    decreases a.len() - from,
{
    if from < a.len() && from < b.len() && from < c.len() && a[from] == b[from] && b[from]
        == c[from] {
        lemma_before_transitive(a, b, c, from + 1);
    }
}

/// Byte order is total: of two different texts that agree before `from`, one
/// comes before the other.
pub proof fn lemma_before_total(a: Seq<u8>, b: Seq<u8>, from: int)
    requires
        0 <= from <= a.len(),
        from <= b.len(),
        forall|i: int| 0 <= i < from ==> a[i] == b[i],
        !bytes_before(a, b, from),
        !bytes_before(b, a, from),
    ensures
        a == b,
    decreases a.len() - from,
{
    if from < a.len() && from < b.len() {
        lemma_before_total(a, b, from + 1);
    } else {
        assert(a =~= b);
    }
}

/// Different identifiers are ordered one way or the other.
pub proof fn lemma_id_order_total(a: Seq<char>, b: Seq<char>)
    requires
        a != b,
    ensures
        id_before(a, b) || id_before(b, a),
{
    broadcast use vstd::utf8::encode_utf8_decode_utf8;

    if !id_before(a, b) && !id_before(b, a) {
        lemma_before_total(encode_utf8(a), encode_utf8(b), 0);
        assert(decode_utf8(encode_utf8(a)) == decode_utf8(encode_utf8(b)));
    }
}

/// Whether a byte is an ASCII decimal digit.
pub open spec fn is_digit(byte: u8) -> bool {
    48 <= byte <= 57
}

/// The number that the first `n` of `digits` write in base ten.
pub open spec fn digits_value(digits: Seq<u8>, n: int) -> int
    decreases n,
{
    if n <= 0 {
        0
    } else {
        digits_value(digits, n - 1) * 10 + (digits[n - 1] - 48)
    }
}

/// What follows the sign, if the text starts with one.
pub open spec fn digits_of(bytes: Seq<u8>) -> Seq<u8> {
    if bytes.len() > 0 && (bytes[0] == 43 || bytes[0] == 45) {
        bytes.skip(1)
    } else {
        bytes
    }
}

/// Whether every byte is a decimal digit.
pub open spec fn all_digits(digits: Seq<u8>) -> bool {
    forall|i: int| 0 <= i < digits.len() ==> is_digit(#[trigger] digits[i])
}

/// The integer that a text writes: an optional `+` or `-`, then one or more
/// decimal digits and nothing else, the whole within the range of `i64`. Any
/// other text writes none.
pub open spec fn integer_of(bytes: Seq<u8>) -> Option<i64> {
    let digits = digits_of(bytes);
    if digits.len() == 0 || !all_digits(digits) {
        None
    } else {
        let magnitude = digits_value(digits, digits.len() as int);
        let value = if bytes[0] == 45 {
            -magnitude
        } else {
            magnitude
        };
        if i64::MIN <= value <= i64::MAX {
            Some(value as i64)
        } else {
            None
        }
    }
}

/// The integer that an ownership cap writes, if it writes one.
pub open spec fn parsed_integer(text: Seq<char>) -> Option<i64> {
    integer_of(encode_utf8(text))
}

/// More digits never write a smaller number.
proof fn lemma_digits_value_grows(digits: Seq<u8>, a: int, b: int)
    requires
        0 <= a <= b <= digits.len(),
        all_digits(digits),
    ensures
        0 <= digits_value(digits, a) <= digits_value(digits, b),
    decreases b,
{
    if a < b {
        lemma_digits_value_grows(digits, a, b - 1);
        assert(is_digit(digits[b - 1]));
    } else if a > 0 {
        lemma_digits_value_grows(digits, a - 1, a - 1);
        assert(is_digit(digits[a - 1]));
    }
}

/// Reads a decimal integer as `str::parse::<i64>` does.
pub fn parse_integer(text: &str) -> (r: Option<i64>)
    ensures
        r == parsed_integer(text@),
{
    let bytes = text.as_bytes();
    let n = bytes.len();
    let start: usize = if n > 0 && (bytes[0] == 43 || bytes[0] == 45) {
        1
    } else {
        0
    };
    let ghost digits = digits_of(bytes@);
    assert(digits =~= bytes@.skip(start as int));
    if start == n {
        return None;
    }
    let negative = bytes[0] == 45;
    let mut acc: i128 = 0;
    let mut i: usize = start;
    while i < n
        invariant
            bytes@ == encode_utf8(text@),
            n == bytes@.len(),
            start <= i <= n,
            digits == digits_of(bytes@),
            digits == bytes@.skip(start as int),
            forall|j: int| 0 <= j < i - start ==> is_digit(#[trigger] digits[j]),
            acc == digits_value(digits, i - start),
            0 <= acc <= 0x8000_0000_0000_0000,
        decreases n - i,
    {
        let byte = bytes[i];
        assert(digits[i - start] == byte);
        if byte < 48 || byte > 57 {
            assert(!is_digit(digits[i - start]));
            return None;
        }
        acc = acc * 10 + (byte - 48) as i128;
        i += 1;
        if acc > 0x8000_0000_0000_0000 {
            proof {
                if all_digits(digits) {
                    lemma_digits_value_grows(digits, i - start, digits.len() as int);
                }
            }
            return None;
        }
    }
    if negative {
        Some((-acc) as i64)
    } else if acc <= 0x7fff_ffff_ffff_ffff {
        Some(acc as i64)
    } else {
        None
    }
}

} // verus!
