//! Small text helpers shared by the decoders and the tracker code: pushing a
//! character onto a `String`, UTF-8 decoding of a byte slice, and decimal
//! rendering of a byte.
use vstd::prelude::*;
use vstd::utf8::{decode_utf8, valid_utf8};

verus! {

/// Appends one character to a `String` (`String::push`).
/// Claimed: the new contents are the old contents followed by `c`.
#[verifier::external_body]
pub(crate) fn push_char(s: &mut String, c: char)
    ensures
        final(s)@ == old(s)@.push(c),
{
    s.push(c)
}

/// Decodes a byte slice as UTF-8 (`std::str::from_utf8`).
/// Claimed: the result is `Some` exactly when the bytes are valid UTF-8 in the
/// sense of vstd's `valid_utf8`, and then its characters are `decode_utf8` of
/// the bytes.
#[verifier::external_body]
pub(crate) fn utf8_str(bytes: &[u8]) -> (res: Option<&str>)
    ensures
        res is Some <==> valid_utf8(bytes@),
        res matches Some(s) ==> s@ == decode_utf8(bytes@),
{
    std::str::from_utf8(bytes).ok()
}

/// The text `String::from_utf8_lossy` makes of bytes: the decoded text,
/// each invalid sequence replaced by U+FFFD.
pub uninterp spec fn lossy_text(bytes: Seq<u8>) -> Seq<char>;

/// Decodes bytes as UTF-8, replacing invalid sequences
/// (`String::from_utf8_lossy`, made owned).
/// Claimed: the result depends on the bytes alone, and for valid UTF-8 it is
/// the decoded text.
#[verifier::external_body]
pub(crate) fn utf8_lossy(bytes: &[u8]) -> (s: String)
    ensures
        s@ == lossy_text(bytes@),
        valid_utf8(bytes@) ==> s@ == decode_utf8(bytes@),
{
    String::from_utf8_lossy(bytes).into_owned()
}

/// The ASCII digit character for a value below ten.
pub open spec fn digit_char(d: int) -> char {
    ((d + 48) as u8) as char
}

/// The decimal rendering of a natural number, without leading zeros.
pub open spec fn decimal(n: nat) -> Seq<char>
    decreases n,
{
    if n < 10 {
        seq![digit_char(n as int)]
    } else {
        decimal(n / 10).push(digit_char((n % 10) as int))
    }
}

/// Appends the decimal rendering of `b` to `s`.
pub fn push_decimal(s: &mut String, b: u8)
    ensures
        final(s)@ == old(s)@ + decimal(b as nat),
{
    if b >= 100 {
        push_char(s, ((b / 100 + 48) as u8) as char);
        push_char(s, (((b / 10) % 10 + 48) as u8) as char);
        push_char(s, ((b % 10 + 48) as u8) as char);
        proof {
            let n = b as nat;
            assert(decimal(n / 10 / 10) == seq![digit_char((n / 100) as int)]);
            assert(decimal(n / 10) == decimal(n / 10 / 10).push(digit_char(((n / 10) % 10) as int)));
        }
    } else if b >= 10 {
        push_char(s, ((b / 10 + 48) as u8) as char);
        push_char(s, ((b % 10 + 48) as u8) as char);
        proof {
            let n = b as nat;
            assert(decimal(n / 10) == seq![digit_char((n / 10) as int)]);
        }
    } else {
        push_char(s, ((b + 48) as u8) as char);
    }
    assert(s@ =~= old(s)@ + decimal(b as nat));
}

} // verus!
