//! The wall clock.

use vstd::prelude::*;
use crate::types::Timestamp;

verus! {

/// Reads the current UTC time through `chrono::Utc::now` and takes it apart
/// with `DateTime::timestamp` and `DateTime::timestamp_subsec_nanos`.
///
/// Nothing is claimed of the result: two readings may differ in any way. The
/// outside call stops the program if the system clock stands before the Unix
/// epoch.
#[verifier::external_body]
pub(crate) fn now() -> (r: Timestamp) {
    let t = chrono::Utc::now();
    Timestamp { secs: t.timestamp(), nanos: t.timestamp_subsec_nanos() }
}

} // verus!
