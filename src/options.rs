//! Reading the numeric and named options of a run.
use vstd::prelude::*;
use vstd::string::*;

verus! {

pub open spec fn is_digit(c: char) -> bool {
    48 <= (c as u32) && (c as u32) <= 57
}

/// The value of a run of decimal digits.
pub open spec fn digits_value(s: Seq<char>) -> int
    decreases s.len(),
{
    if s.len() == 0 {
        0
    } else {
        10 * digits_value(s.drop_last()) + ((s.last() as u32) as int - 48)
    }
}

pub open spec fn all_digits(s: Seq<char>) -> bool {
    s.len() > 0 && forall|i: int| 0 <= i < s.len() ==> is_digit(#[trigger] s[i])
}

/// The value of an optional sign followed by decimal digits, and nothing else.
pub open spec fn signed_value(s: Seq<char>) -> Option<int> {
    if s.len() > 0 && (s[0] == '+' || s[0] == '-') {
        if all_digits(s.drop_first()) {
            Some(
                if s[0] == '-' {
                    -digits_value(s.drop_first())
                } else {
                    digits_value(s.drop_first())
                },
            )
        } else {
            None
        }
    } else if all_digits(s) {
        Some(digits_value(s))
    } else {
        None
    }
}

/// The `i64` that a text spells, if it spells one.
pub open spec fn i64_text(s: Seq<char>) -> Option<int> {
    match signed_value(s) {
        Some(v) => if i64::MIN <= v <= i64::MAX {
            Some(v)
        } else {
            None
        },
        None => None,
    }
}

pub open spec fn not_integer_text() -> Seq<char> {
    seq![' ', 'i', 's', ' ', 'n', 'o', 't', ' ', 'a', ' ', 'v', 'a', 'l', 'i', 'd', ' ', 'i', 'n', 't', 'e', 'g', 'e', 'r', ':', ' ']
}

/// The `Display` text of the error that parsing `s` as an `i64` gives; it
/// depends on the characters alone.
pub uninterp spec fn int_error_text(s: Seq<char>) -> Seq<char>;

/// What `str`'s `Debug` writes for a text: it quoted, with escapes.
pub uninterp spec fn debug_quoted(s: Seq<char>) -> Seq<char>;

/// Relies on `i64::from_str` (std): it accepts exactly an optional `+` or
/// `-` followed by one or more ASCII digits, with a value in range; the
/// error is turned into its `Display` text.
#[verifier::external_body]
fn parse_i64(s: &str) -> (r: Result<i64, String>)
    ensures
        (r is Ok) == (i64_text(s@) is Some),
        r is Ok ==> r->Ok_0 == i64_text(s@)->0,
        r is Err ==> r->Err_0@ == int_error_text(s@),
{
    <i64 as std::str::FromStr>::from_str(s).map_err(|e| e.to_string())
}

/// Relies on `str`'s `Debug`: the text in double quotes, with escapes.
#[verifier::external_body]
fn quoted(s: &str) -> (r: String)
    ensures
        r@ == debug_quoted(s@),
{
    format!("{:?}", s)
}

/// The message for a refused integer: the quoted text, then the reason.
pub fn invalid_integer_message(quoted: &str, reason: &str) -> (r: String)
    ensures
        r@ == quoted@ + not_integer_text() + reason@,
{
    let mut m = String::from_str(quoted);
    proof {
        reveal_strlit(" is not a valid integer: ");
        assert(" is not a valid integer: "@ =~= not_integer_text());
    }
    m.append(" is not a valid integer: ");
    m.append(reason);
    m
}

/// The integer that `s` spells.
pub fn parse_int(s: &str) -> (r: Option<i64>)
    ensures
        (r is Some) == (i64_text(s@) is Some),
        r is Some ==> r->0 == i64_text(s@)->0,
{
    match parse_i64(s) {
        Ok(v) => Some(v),
        Err(_) => None,
    }
}

/// Accepts a text that spells an `i64`; refuses any other with a message
/// that quotes it and gives the reason.
pub fn validate_int(s: String) -> (r: Result<(), String>)
    ensures
        (r is Ok) == (i64_text(s@) is Some),
        r is Err ==> r->Err_0@ == debug_quoted(s@) + not_integer_text() + int_error_text(s@),
{
    match parse_i64(s.as_str()) {
        Ok(_) => Ok(()),
        Err(reason) => {
            let q = quoted(s.as_str());
            Err(invalid_integer_message(q.as_str(), reason.as_str()))
        },
    }
}

} // verus!
