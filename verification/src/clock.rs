//! The collector's clock. The wall-clock reading is nondeterministic, so
//! nothing is promised of its value; every caller states what holds of any
//! reading it is handed.

use vstd::prelude::*;

verus! {

/// Relies on `chrono::DateTime::<Utc>::from(SystemTime)` and
/// `DateTime::timestamp`: the current wall-clock time as whole seconds since
/// the Unix epoch. `std::time::SystemTime::now` supplies the reading, and the
/// `From` conversion is total for clocks before the epoch as well (it
/// branches on the error instead of unwrapping it); readings are assumed to
/// lie within chrono's representable range of roughly 262,000 years around
/// the epoch, outside which the conversion aborts. The value depends on when
/// the call runs, so no contract pins it down.
#[verifier::external_body]
pub fn now_timestamp() -> i64 {
    chrono::DateTime::<chrono::Utc>::from(std::time::SystemTime::now()).timestamp()
}

} // verus!
