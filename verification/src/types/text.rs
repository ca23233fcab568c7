//! Text for messages: decimal numbers and byte strings shown as text.
use vstd::prelude::*;

verus! {

/// Appending to a string: `String::push_str` puts `other` after what the
/// string holds.
pub assume_specification[ String::push_str ](s: &mut String, other: &str)
    ensures
        final(s)@ == old(s)@ + other@,
;

/// The character of a decimal digit.
pub open spec fn digit_char(d: nat) -> char {
    if d == 0 {
        '0'
    } else if d == 1 {
        '1'
    } else if d == 2 {
        '2'
    } else if d == 3 {
        '3'
    } else if d == 4 {
        '4'
    } else if d == 5 {
        '5'
    } else if d == 6 {
        '6'
    } else if d == 7 {
        '7'
    } else if d == 8 {
        '8'
    } else {
        '9'
    }
}

/// The decimal digits of `n`, without leading zeros.
pub open spec fn decimal_digits(n: nat) -> Seq<char>
    decreases n,
{
    if n < 10 {
        seq![digit_char(n)]
    } else {
        decimal_digits(n / 10).push(digit_char(n % 10))
    }
}

/// The text that stands for a byte string where the bytes are not valid
/// UTF-8 throughout: what `String::from_utf8_lossy` makes of them, with
/// the replacement character for every invalid sequence.
pub uninterp spec fn utf8_lossy(bytes: Seq<u8>) -> Seq<char>;

/// Calls `u64::to_string`, which writes a number in decimal digits
/// without sign, padding or leading zeros.
#[verifier::external_body]
pub(crate) fn decimal(n: u64) -> (r: String)
    ensures
        r@ == decimal_digits(n as nat),
{
    n.to_string()
}

/// Calls `String::from_utf8_lossy`, which decodes the bytes as UTF-8 and
/// puts the replacement character where they are not; the result depends
/// on the bytes alone.
#[verifier::external_body]
pub(crate) fn lossy_text(bytes: &[u8]) -> (r: String)
    ensures
        r@ == utf8_lossy(bytes@),
{
    String::from_utf8_lossy(bytes).into_owned()
}

/// The text `before`, the number `n` in decimal, and the text `after`.
pub open spec fn with_number(before: Seq<char>, n: nat, after: Seq<char>) -> Seq<char> {
    before + decimal_digits(n) + after
}

/// A text with a number in it.
pub(crate) fn numbered(before: &str, n: usize, after: &str) -> (r: String)
    ensures
        r@ == with_number(before@, n as nat, after@),
{
    let mut text = before.to_owned();
    let digits = decimal(n as u64);
    text.push_str(digits.as_str());
    text.push_str(after);
    text
}

/// A text as it is shown for debugging: between double quotes, with an
/// escape for every character that would not show as itself.
pub uninterp spec fn debug_quoted(text: Seq<char>) -> Seq<char>;

/// Calls `format!` with `{:?}` on a string slice, which writes the text
/// as `<str as Debug>::fmt` does: between double quotes, with escapes;
/// the result depends on the text alone.
#[verifier::external_body]
pub(crate) fn quoted(text: &str) -> (r: String)
    ensures
        r@ == debug_quoted(text@),
{
    format!("{:?}", text)
}

/// The text of a truth value: `true` or `false`.
pub open spec fn bool_text(b: bool) -> Seq<char> {
    if b {
        "true"@
    } else {
        "false"@
    }
}

} // verus!
