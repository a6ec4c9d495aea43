//! Trusted bindings to the engine's external collaborators: the wall clock
//! and the random identifier generator.

use vstd::prelude::*;

verus! {

/// Relies on chrono's `Utc::now` / `DateTime::timestamp`: the current
/// wall-clock time as whole seconds since the Unix epoch.  The value
/// depends on the machine's clock, so nothing is assumed of it.
#[verifier::external_body]
pub(crate) fn now_seconds() -> i64 {
    chrono::Utc::now().timestamp()
}

/// Relies on uuid's `Uuid::new_v4` / `Uuid::as_u128`: a freshly drawn
/// random version-4 identifier.  The value is random, so nothing is
/// assumed of it.
#[verifier::external_body]
pub(crate) fn fresh_id() -> u128 {
    uuid::Uuid::new_v4().as_u128()
}

} // verus!
