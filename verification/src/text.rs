//! Error messages, and the decimal digits some of them carry.
use vstd::prelude::*;

verus! {

/// The character of the decimal digit `d` (`0 <= d < 10`).
pub open spec fn digit_char(d: int) -> char {
    if d == 0 {
        '0'
    } else if d == 1 {
        '1'
    } else if d == 2 {
        '2'
    } else if d == 3 {
        '3'
    } else if d == 4 {
        '4'
    } else if d == 5 {
        '5'
    } else if d == 6 {
        '6'
    } else if d == 7 {
        '7'
    } else if d == 8 {
        '8'
    } else {
        '9'
    }
}

/// `n` written in decimal, without leading zeros (`0` is written `"0"`).
pub open spec fn decimal(n: nat) -> Seq<char>
    decreases n,
{
    if n < 10 {
        seq![digit_char(n as int)]
    } else {
        decimal(n / 10).push(digit_char((n % 10) as int))
    }
}

/// Calls std's `String::push`; trusted to leave the string's characters
/// followed by `c`, as its documentation says.
#[verifier::external_body]
fn string_push(s: &mut String, c: char)
    ensures
        final(s)@ == old(s)@.push(c),
{
    s.push(c);
}

/// Calls std's `String::push_str`; trusted to leave the string's characters
/// followed by those of `t`, in order, as its documentation says.
#[verifier::external_body]
pub(crate) fn string_push_str(s: &mut String, t: &str)
    ensures
        final(s)@ == old(s)@ + t@,
{
    s.push_str(t);
}

fn digit(d: u64) -> (c: char)
    requires
        d < 10,
    ensures
        c == digit_char(d as int),
{
    if d == 0 {
        '0'
    } else if d == 1 {
        '1'
    } else if d == 2 {
        '2'
    } else if d == 3 {
        '3'
    } else if d == 4 {
        '4'
    } else if d == 5 {
        '5'
    } else if d == 6 {
        '6'
    } else if d == 7 {
        '7'
    } else if d == 8 {
        '8'
    } else {
        '9'
    }
}

/// Appends the decimal digits of `n`.
pub fn push_decimal(s: &mut String, n: u64)
    ensures
        final(s)@ == old(s)@ + decimal(n as nat),
    decreases n,
{
    if n >= 10 {
        push_decimal(s, n / 10);
    }
    let c = digit(n % 10);
    string_push(s, c);
    proof {
        if n >= 10 {
            assert(old(s)@ + decimal(n as nat) =~= old(s)@ + decimal((n / 10) as nat) + seq![c]);
        } else {
            assert(old(s)@ + decimal(n as nat) =~= old(s)@ + seq![c]);
        }
    }
}

/// The message of a field record shorter than its length word.
pub open spec fn field_no_length_message() -> Seq<char> {
    "field data too short (need at least 4 bytes for length)"@
}

/// The message of a field record of `got` bytes that announces `need` bytes.
pub open spec fn field_short_message(got: nat, need: nat) -> Seq<char> {
    "field data too short: got "@ + decimal(got) + " bytes, need "@ + decimal(need)
}

/// The message of a world record that ends inside a 32-bit word.
pub open spec fn end_in_u32_message() -> Seq<char> {
    "unexpected end of data reading u32"@
}

/// The message of a world record that ends inside a 64-bit float.
pub open spec fn end_in_f64_message() -> Seq<char> {
    "unexpected end of data reading f64"@
}

pub fn field_no_length_error() -> (s: String)
    ensures
        s@ == field_no_length_message(),
{
    "field data too short (need at least 4 bytes for length)".to_owned()
}

pub fn field_short_error(got: u64, need: u64) -> (s: String)
    ensures
        s@ == field_short_message(got as nat, need as nat),
{
    let mut s = "field data too short: got ".to_owned();
    push_decimal(&mut s, got);
    string_push_str(&mut s, " bytes, need ");
    push_decimal(&mut s, need);
    s
}

pub fn end_in_u32_error() -> (s: String)
    ensures
        s@ == end_in_u32_message(),
{
    "unexpected end of data reading u32".to_owned()
}

pub fn end_in_f64_error() -> (s: String)
    ensures
        s@ == end_in_f64_message(),
{
    "unexpected end of data reading f64".to_owned()
}

} // verus!
