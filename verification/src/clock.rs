//! The wall clock, read through chrono.

use vstd::prelude::*;

verus! {

#[verifier::external_type_specification]
#[verifier::external_body]
pub struct ExNaiveDateTime(chrono::NaiveDateTime);

/// The time stamp patterns this library formats with.
pub open spec fn is_stamp_pattern(pattern: Seq<char>) -> bool {
    pattern == "%Y-%m-%d %H:%M:%S"@ || pattern == "%Y%m%d_%H%M%S"@
}

/// `chrono::Local::now()`, the current date and time in the local time zone, taken
/// as its local wall-clock reading. Nothing is claimed of the value, which depends
/// on the clock and the time zone.
#[verifier::external_body]
pub(crate) fn local_now() -> chrono::NaiveDateTime {
    chrono::Local::now().naive_local()
}

/// Whether `c` is an ASCII digit.
pub open spec fn is_digit(c: char) -> bool {
    '0' <= c <= '9'
}

/// How chrono writes a year with `%Y`: four digits for the years 0 to 9999, and
/// otherwise a sign followed by at least four digits.
pub open spec fn is_year_text(y: Seq<char>) -> bool {
    ||| (y.len() == 4 && forall|i: int| 0 <= i < 4 ==> is_digit(#[trigger] y[i]))
    ||| (y.len() >= 5 && (y[0] == '+' || y[0] == '-') && forall|i: int|
        1 <= i < y.len() ==> is_digit(#[trigger] y[i]))
}

/// `s` follows the template `t`, where `9` stands for any digit and every other
/// character stands for itself.
pub open spec fn fits_template(s: Seq<char>, t: Seq<char>) -> bool {
    &&& s.len() == t.len()
    &&& forall|i: int|
        0 <= i < t.len() ==> if t[i] == '9' {
            is_digit(#[trigger] s[i])
        } else {
            s[i] == t[i]
        }
}

/// A year written by `%Y`, followed by the rest of the stamp as the template `t`
/// says.
pub open spec fn is_stamp_text(s: Seq<char>, t: Seq<char>) -> bool {
    &&& s.len() >= t.len()
    &&& is_year_text(s.take(s.len() - t.len()))
    &&& fits_template(s.skip(s.len() - t.len()), t)
}

/// What `%Y%m%d_%H%M%S` writes after the year: month, day, `_`, hour, minute and
/// second, each as two digits.
pub open spec fn compact_stamp_tail() -> Seq<char> {
    seq!['9', '9', '9', '9', '_', '9', '9', '9', '9', '9', '9']
}

/// What `%Y-%m-%d %H:%M:%S` writes after the year.
pub open spec fn long_stamp_tail() -> Seq<char> {
    seq!['-', '9', '9', '-', '9', '9', ' ', '9', '9', ':', '9', '9', ':', '9', '9']
}

/// `NaiveDateTime::format(pattern)` from chrono, turned into a `String`. The
/// pattern is one of the fixed patterns of this library, which hold no offset or
/// zone field, so formatting cannot fail. Of the text only its shape is claimed,
/// as chrono's numeric formatting writes it: the year as `%Y` writes it, then each
/// other field as two zero-padded digits between the pattern's literal
/// characters. Which digits they are depends on `t`, which is not described.
#[verifier::external_body]
pub(crate) fn format_local(t: &chrono::NaiveDateTime, pattern: &str) -> (s: String)
    requires
        is_stamp_pattern(pattern@),
    ensures
        pattern@ == "%Y%m%d_%H%M%S"@ ==> is_stamp_text(s@, compact_stamp_tail()),
        pattern@ == "%Y-%m-%d %H:%M:%S"@ ==> is_stamp_text(s@, long_stamp_tail()),
{
    t.format(pattern).to_string()
}

} // verus!
