//! The wall clock.

use vstd::prelude::*;

verus! {

#[verifier::external_type_specification]
#[verifier::external_body]
pub struct ExNaiveDateTime(chrono::NaiveDateTime);

/// The system clock, `std::time::SystemTime::now`, turned into a date and
/// time by chrono's `From<SystemTime>` for `DateTime<Utc>` and taken without
/// its zone by `DateTime::naive_utc`. A clock that stands before 1970 gives
/// a date before 1970. Nothing is claimed of what the clock says.
#[verifier::external_body]
pub(crate) fn utc_now() -> (now: chrono::NaiveDateTime) {
    chrono::DateTime::<chrono::Utc>::from(std::time::SystemTime::now()).naive_utc()
}

/// `chrono::NaiveDateTime::signed_duration_since`, in whole milliseconds as
/// `chrono::TimeDelta::num_milliseconds` gives them. Nothing is claimed of
/// the number; it is negative where the clock went back.
#[verifier::external_body]
pub(crate) fn millis_between(start: &chrono::NaiveDateTime, now: &chrono::NaiveDateTime) -> (ms:
    i64) {
    now.signed_duration_since(*start).num_milliseconds()
}

} // verus!
