//! Wall-clock time stamps for decoded chat messages.
use vstd::prelude::*;

verus! {

/// The number written by the two decimal digits at `i`.
pub open spec fn two_digits(s: Seq<char>, i: int) -> int {
    (s[i] as int - '0' as int) * 10 + (s[i + 1] as int - '0' as int)
}

/// Text of the form `HH:MM:SS`: eight characters, colons at positions 2
/// and 5, decimal digits elsewhere; hours at most 23, minutes at most 59,
/// seconds at most 60 (a leap second).
pub open spec fn is_clock_text(s: Seq<char>) -> bool {
    &&& s.len() == 8
    &&& s[2] == ':'
    &&& s[5] == ':'
    &&& forall|i: int| 0 <= i < 8 && i != 2 && i != 5 ==> '0' <= #[trigger] s[i] <= '9'
    &&& two_digits(s, 0) <= 23
    &&& two_digits(s, 3) <= 59
    &&& two_digits(s, 6) <= 60
}

/// Calls `chrono::Local::now().format("%H:%M:%S")`: the local time of day,
/// hours (00-23), minutes (00-59) and seconds (00-60) zero-padded to two
/// digits.  Which time it is depends on the clock and the time zone; only
/// the form is stated.
#[verifier::external_body]
pub fn local_time_hms() -> (s: String)
    ensures
        is_clock_text(s@),
{
    chrono::Local::now().format("%H:%M:%S").to_string()
}

} // verus!
