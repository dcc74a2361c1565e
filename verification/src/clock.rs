//! The time of day, as it is written down.
use vstd::prelude::*;

verus! {

/// Whether a character is a decimal digit.
pub open spec fn is_digit(c: char) -> bool {
    '0' <= c && c <= '9'
}

/// Whether the first `n` characters are a year: at least four digits, with a sign before them
/// where the year has more.
pub open spec fn is_year(s: Seq<char>, n: int) -> bool {
    &&& 4 <= n <= s.len()
    &&& forall|i: int| 0 <= i < n ==> is_digit(#[trigger] s[i]) || (i == 0 && n > 4 && s[i] == '+')
}

/// Whether a text is a time of the form `20260131-235959`.
pub open spec fn is_version_stamp(s: Seq<char>) -> bool {
    let n = s.len() as int;
    &&& is_year(s, n - 11)
    &&& s[n - 7] == '-'
    &&& forall|i: int| n - 11 <= i < n && i != n - 7 ==> is_digit(#[trigger] s[i])
}

/// Whether a text is a time of the form `2026-01-31T23:59:59.5+00:00`, with a year of `n`
/// characters.
pub open spec fn is_time_after_year(s: Seq<char>, n: int) -> bool {
    &&& is_year(s, n)
    &&& n + 21 <= s.len()
    &&& s[n] == '-' && s[n + 3] == '-' && s[n + 6] == 'T' && s[n + 9] == ':' && s[n + 12] == ':'
    &&& is_digit(s[n + 1]) && is_digit(s[n + 2]) && is_digit(s[n + 4]) && is_digit(s[n + 5])
    &&& is_digit(s[n + 7]) && is_digit(s[n + 8]) && is_digit(s[n + 10]) && is_digit(s[n + 11])
    &&& is_digit(s[n + 13]) && is_digit(s[n + 14])
    &&& s.skip(s.len() - 6) == "+00:00"@
}

/// Whether a text is a time in UTC as RFC 3339 has it.
pub open spec fn is_time_stamp(s: Seq<char>) -> bool {
    exists|n: int| is_time_after_year(s, n)
}

/// `chrono::Utc::now`, formatted by `%Y%m%d-%H%M%S`: the digits of the date, a hyphen, and the
/// digits of the time. Which time it is stays open.
#[verifier::external_body]
pub(crate) fn version_stamp() -> (r: String)
    ensures
        is_version_stamp(r@),
{
    chrono::Utc::now().format("%Y%m%d-%H%M%S").to_string()
}

/// `chrono::Utc::now`, written by `to_rfc3339`: date and time with a `T` between them, and the
/// offset of UTC. Which time it is stays open.
#[verifier::external_body]
pub(crate) fn time_stamp() -> (r: String)
    ensures
        is_time_stamp(r@),
{
    chrono::Utc::now().to_rfc3339()
}

} // verus!
