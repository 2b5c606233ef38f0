//! Decimal text and character/string conversions used for labels and boards.
use vstd::prelude::*;

verus! {

/// The character of a decimal digit `d` (`d < 10`).
pub open spec fn digit_of(d: nat) -> char {
    if d == 0 {
        '0'
    } else if d == 1 {
        '1'
    } else if d == 2 {
        '2'
    } else if d == 3 {
        '3'
    } else if d == 4 {
        '4'
    } else if d == 5 {
        '5'
    } else if d == 6 {
        '6'
    } else if d == 7 {
        '7'
    } else if d == 8 {
        '8'
    } else {
        '9'
    }
}

/// Decimal representation of `n`, most significant digit first, no leading zeros
/// (`"0"` for zero).
pub open spec fn decimal_digits(n: nat) -> Seq<char>
    decreases n,
{
    if n < 10 {
        seq![digit_of(n)]
    } else {
        decimal_digits(n / 10).push(digit_of(n % 10))
    }
}

/// `prefix` followed by the decimal digits of `n`.
///
/// Calls std's `format!("{}{}", prefix, n)`; the contract states that the
/// `Display` impl of `u64` writes the decimal digits of `n` with no sign and no
/// leading zeros, as std documents.
#[verifier::external_body]
pub(crate) fn label(prefix: &str, n: u64) -> (s: String)
    ensures
        s@ == prefix@ + decimal_digits(n as nat),
{
    format!("{}{}", prefix, n)
}

/// Collects characters into a `String`.
///
/// Calls std's `FromIterator<char>` for `String`; the contract states that the
/// string holds exactly the given characters, in order.
#[verifier::external_body]
pub(crate) fn string_from_chars(chars: &Vec<char>) -> (s: String)
    ensures
        s@ == chars@,
{
    chars.iter().collect()
}

/// Appends `tail` to `head`.
///
/// Calls std's `String::push_str`; the contract states that the result is the
/// concatenation, as std documents.
#[verifier::external_body]
pub(crate) fn push_text(head: &mut String, tail: &str)
    ensures
        final(head)@ == old(head)@ + tail@,
{
    head.push_str(tail)
}

} // verus!
