//! Text payloads: decimal numbers and UTF-8.

use vstd::prelude::*;

verus! {

/// An ASCII decimal digit.
pub open spec fn is_digit(b: u8) -> bool {
    0x30 <= b <= 0x39
}

/// Whether the text starts with `+` or `-`.
pub open spec fn has_sign(s: Seq<u8>) -> bool {
    s.len() > 0 && (s[0] == 0x2b || s[0] == 0x2d)
}

/// The text without its sign.
pub open spec fn magnitude(s: Seq<u8>) -> Seq<u8> {
    if has_sign(s) {
        s.skip(1)
    } else {
        s
    }
}

/// Every byte is a decimal digit.
pub open spec fn all_digits(s: Seq<u8>) -> bool {
    forall|i: int| 0 <= i < s.len() ==> is_digit(#[trigger] s[i])
}

/// A decimal number: an optional sign, then one digit or more, and nothing
/// else.
pub open spec fn is_decimal(s: Seq<u8>) -> bool {
    magnitude(s).len() > 0 && all_digits(magnitude(s))
}

/// The number that a string of digits writes.
pub open spec fn digits_value(s: Seq<u8>) -> nat
    decreases s.len(),
{
    if s.len() == 0 {
        0
    } else {
        10 * digits_value(s.drop_last()) + (s.last() - 0x30) as nat
    }
}

/// The number that a decimal text writes.
pub open spec fn decimal_value(s: Seq<u8>) -> int {
    if has_sign(s) && s[0] == 0x2d {
        -(digits_value(magnitude(s)) as int)
    } else {
        digits_value(magnitude(s)) as int
    }
}

/// What a text payload means as an `i32`: its value where it is a decimal
/// number within range, nothing otherwise.
pub open spec fn decimal_i32(s: Seq<u8>) -> Option<i32> {
    if is_decimal(s) && i32::MIN <= decimal_value(s) <= i32::MAX {
        Some(decimal_value(s) as i32)
    } else {
        None
    }
}

/// What a text payload means as an `i64`: its value where it is a decimal
/// number within range, nothing otherwise.
pub open spec fn decimal_i64(s: Seq<u8>) -> Option<i64> {
    if is_decimal(s) && i64::MIN <= decimal_value(s) <= i64::MAX {
        Some(decimal_value(s) as i64)
    } else {
        None
    }
}

/// Tells whether `text` is a decimal number from its first byte to its last.
pub fn check_decimal(text: &[u8]) -> (ok: bool)
    ensures
        ok == is_decimal(text@),
{
    let n: usize = text.len();
    let mut i: usize = 0;
    if n > 0 && (text[0] == 0x2b || text[0] == 0x2d) {
        i = 1;
    }
    let first: usize = i;
    if first == n {
        return false;
    }
    while i < n
        invariant
            first <= i <= n,
            n == text@.len(),
            magnitude(text@) == text@.skip(first as int),
            forall|j: int| first <= j < i ==> is_digit(#[trigger] text@[j]),
        decreases n - i,
    {
        if !(0x30 <= text[i] && text[i] <= 0x39) {
            assert(!is_digit(magnitude(text@)[i - first]));
            return false;
        }
        i += 1;
    }
    assert forall|j: int| 0 <= j < magnitude(text@).len() implies is_digit(
        #[trigger] magnitude(text@)[j],
    ) by {
        assert(magnitude(text@)[j] == text@[j + first]);
    }
    true
}

/// `atoi::atoi` at `i32`. On a text that is a decimal number throughout, it
/// gives the number where an `i32` holds it and `None` where it does not.
#[verifier::external_body]
fn atoi_i32(text: &[u8]) -> (r: Option<i32>)
    requires
        is_decimal(text@),
    ensures
        r == decimal_i32(text@),
{
    atoi::atoi::<i32>(text)
}

/// `atoi::atoi` at `i64`. On a text that is a decimal number throughout, it
/// gives the number where an `i64` holds it and `None` where it does not.
#[verifier::external_body]
fn atoi_i64(text: &[u8]) -> (r: Option<i64>)
    requires
        is_decimal(text@),
    ensures
        r == decimal_i64(text@),
{
    atoi::atoi::<i64>(text)
}

/// `core::str::from_utf8`, which accepts a byte string exactly when it is
/// valid UTF-8.
#[verifier::external_body]
pub(crate) fn from_utf8_ok(text: &[u8]) -> (ok: bool)
    ensures
        ok == vstd::utf8::valid_utf8(text@),
{
    core::str::from_utf8(text).is_ok()
}

/// Reads a decimal text as an `i32`.
pub fn parse_i32(text: &[u8]) -> (r: Option<i32>)
    ensures
        r == decimal_i32(text@),
{
    if check_decimal(text) {
        atoi_i32(text)
    } else {
        None
    }
}

/// Reads a decimal text as an `i64`.
pub fn parse_i64(text: &[u8]) -> (r: Option<i64>)
    ensures
        r == decimal_i64(text@),
{
    if check_decimal(text) {
        atoi_i64(text)
    } else {
        None
    }
}

} // verus!
