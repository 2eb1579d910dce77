//! The one look at the wall clock the core takes.
//!
//! Every scheduling computation takes the current instant as an argument
//! and is verified for every value of it; this wrapper only produces that
//! argument. Nothing can be promised of the time now.

use vstd::prelude::*;

verus! {

/// Relies on chrono::Utc::now: the current instant, in milliseconds since
/// the epoch. Nothing is promised of the value.
#[verifier::external_body]
pub(crate) fn now_millis() -> i64 {
    chrono::Utc::now().timestamp_millis()
}

} // verus!
