//! The system clock, which commits are stamped with.

use vstd::prelude::*;

verus! {

/// `std::time::SystemTime`, carried through unchanged.
#[verifier::external_type_specification]
#[verifier::external_body]
pub struct ExSystemTime(std::time::SystemTime);

/// `std::time::SystemTime::now`. Nothing is promised of the time it returns.
#[verifier::external_body]
pub(crate) fn now() -> (t: std::time::SystemTime) {
    std::time::SystemTime::now()
}

/// `SystemTime::duration_since(UNIX_EPOCH)`: how long after the Unix epoch
/// `t` lies, `None` where `t` is earlier. Nothing is promised of the value.
#[verifier::external_body]
pub(crate) fn since_epoch(t: &std::time::SystemTime) -> (d: Option<core::time::Duration>) {
    t.duration_since(std::time::UNIX_EPOCH).ok()
}

/// `Duration::as_secs`: the whole seconds of a duration. Nothing is promised
/// of the value.
#[verifier::external_body]
pub(crate) fn whole_seconds(d: &core::time::Duration) -> (s: u64) {
    d.as_secs()
}

} // verus!
