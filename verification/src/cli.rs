use vstd::prelude::*;

verus! {

pub open spec fn is_decimal_digit(c: char) -> bool {
    '0' <= c && c <= '9'
}

/// Value of a string of decimal digits, most significant first.
pub open spec fn decimal_value(digits: Seq<char>) -> int
    decreases digits.len(),
{
    if digits.len() == 0 {
        0
    } else {
        decimal_value(digits.drop_last()) * 10 + (digits.last() as int - '0' as int)
    }
}

/// The string without its leading `+`, if it has one.
pub open spec fn strip_plus(s: Seq<char>) -> Seq<char> {
    if s.len() > 0 && s[0] == '+' {
        s.drop_first()
    } else {
        s
    }
}

/// Whether every character of the string is an ASCII decimal digit.
pub open spec fn all_decimal_digits(digits: Seq<char>) -> bool {
    forall|i: int| 0 <= i < digits.len() ==> #[trigger] is_decimal_digit(digits[i])
}

/// `usize`'s reading of a string: an optional `+` followed by one or more
/// ASCII decimal digits whose value fits in a `usize`; anything else is rejected.
pub open spec fn parse_usize_spec(s: Seq<char>) -> Option<usize> {
    if strip_plus(s).len() > 0 && all_decimal_digits(strip_plus(s)) && decimal_value(strip_plus(s))
        <= usize::MAX {
        Some(decimal_value(strip_plus(s)) as usize)
    } else {
        None
    }
}

/// `str::parse::<usize>`, keeping only whether it succeeded and its value.
///
/// Claimed from the standard library's documentation of `usize::from_str`
/// (`from_str_radix` with radix 10): the string must be an optional `+` sign
/// followed by at least one ASCII digit and nothing else, and the value must
/// fit in a `usize`; otherwise parsing fails.
#[verifier::external_body]
fn parse_usize(s: &str) -> (r: Option<usize>)
    ensures
        r == parse_usize_spec(s@),
{
    s.parse::<usize>().ok()
}

/// Reads the frames-per-inference batch size: a decimal integer of at least 1.
pub fn parse_batch_size(value: &str) -> (r: Result<usize, String>)
    ensures
        match parse_usize_spec(value@) {
            None => r matches Err(e) && e@ == "must be a positive integer"@,
            Some(n) => if n == 0 {
                r matches Err(e) && e@ == "must be at least 1"@
            } else {
                r == Ok::<usize, String>(n)
            },
        },
{
    match parse_usize(value) {
        None => Err("must be a positive integer".to_owned()),
        Some(batch_size) => {
            if batch_size == 0 {
                Err("must be at least 1".to_owned())
            } else {
                Ok(batch_size)
            }
        },
    }
}

} // verus!
