//! The wall clock, read through `chrono`.
use vstd::prelude::*;

verus! {

/// Calls `chrono::Local::now().timestamp()`: the current time in seconds
/// since the Unix epoch. Nothing is stated of the value: it is the time.
#[verifier::external_body]
pub(crate) fn now_unix() -> (r: i64) {
    chrono::Local::now().timestamp()
}

/// An ASCII digit.
pub open spec fn is_digit_char(c: char) -> bool {
    '0' <= c && c <= '9'
}

/// `s[i]` and `s[i + 1]` are ASCII digits whose two-digit value lies in
/// `lo..=hi`.
pub open spec fn two_digits_in(s: Seq<char>, i: int, lo: int, hi: int) -> bool {
    &&& is_digit_char(s[i])
    &&& is_digit_char(s[i + 1])
    &&& lo <= (s[i] as u32 - 48) * 10 + (s[i + 1] as u32 - 48) <= hi
}

/// The year as `%Y` writes it: four digits, or (before year 0 or after
/// 9999) a sign and at least four digits.
pub open spec fn year_text(y: Seq<char>) -> bool {
    ||| y.len() == 4 && forall|i: int| 0 <= i < 4 ==> is_digit_char(#[trigger] y[i])
    ||| y.len() >= 5 && (y[0] == '+' || y[0] == '-') && forall|i: int|
        1 <= i < y.len() ==> is_digit_char(#[trigger] y[i])
}

/// A stamp in the form `%Y%m%d_%H%M%S`: the year, month `01`-`12`, day
/// `01`-`31`, `_`, hour `00`-`23`, minute `00`-`59`, second `00`-`60`.
pub open spec fn stamp_form(s: Seq<char>) -> bool {
    let n = s.len() as int;
    &&& n >= 15
    &&& year_text(s.subrange(0, n - 11))
    &&& two_digits_in(s, n - 11, 1, 12)
    &&& two_digits_in(s, n - 9, 1, 31)
    &&& s[n - 7] == '_'
    &&& two_digits_in(s, n - 6, 0, 23)
    &&& two_digits_in(s, n - 4, 0, 59)
    &&& two_digits_in(s, n - 2, 0, 60)
}

/// Calls `chrono::Local::now().format("%Y%m%d_%H%M%S")` and renders it: the
/// local date and time as used in backup file names. Trusted: the text has
/// the form chrono's format documentation gives for these fields
/// (`stamp_form`); which date and time it shows is not stated: it is the
/// time.
#[verifier::external_body]
pub(crate) fn timestamp() -> (r: String)
    ensures
        stamp_form(r@),
{
    chrono::Local::now().format("%Y%m%d_%H%M%S").to_string()
}

/// Calls `chrono::Local::now().to_rfc3339()`: the local date and time of a
/// log entry. Nothing is stated of the value: it is the time.
#[verifier::external_body]
pub(crate) fn now_rfc3339() -> (r: String) {
    chrono::Local::now().to_rfc3339()
}

} // verus!
