use vstd::prelude::*;

use crate::types::Timestamp;

verus! {

/// Calls `chrono::Utc::now()` and splits the instant into its whole seconds
/// since the Unix epoch (`timestamp`) and the nanoseconds past that second
/// (`timestamp_subsec_nanos`). `Utc::now` builds the instant from the
/// `subsec_nanos` of a `Duration`, which is always below one billion, so no
/// leap second arises and the nanoseconds stay below one billion. The seconds
/// are whatever the system clock reads; nothing is stated of them.
#[verifier::external_body]
pub(crate) fn utc_now() -> (t: Timestamp)
    ensures
        t.nanos < 1_000_000_000,
{
    let now = chrono::Utc::now();
    Timestamp { secs: now.timestamp(), nanos: now.timestamp_subsec_nanos() }
}

} // verus!
