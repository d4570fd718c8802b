//! Small helpers that reach outside the core: the clock and fresh ids.

use vstd::prelude::*;

verus! {

/// Relies on chrono's `Utc::now` and `DateTime::timestamp_millis`: the local
/// UTC timestamp in milliseconds. The result depends on the clock, so
/// nothing can be promised of it.
#[verifier::external_body]
pub fn get_epoch_ms() -> u128 {
    chrono::Utc::now().timestamp_millis() as u128
}

/// Relies on uuid's `Uuid::new_v4` and `Uuid::as_u128`: a freshly drawn
/// random connection id. Randomness promises nothing a proof could use.
#[verifier::external_body]
pub fn new_connection_id() -> u128 {
    uuid::Uuid::new_v4().as_u128()
}

} // verus!
