//! A forum reputation core: an arbitrary-precision decimal integer carried
//! as a digit string, a reputation level derived from a score's magnitude, a
//! vote-weight rule over two levels, and a transactional vote ledger that
//! keeps one active vote per (voter, target) pair and holds each target's
//! aggregate score and vote counts consistent with the recorded votes.
use vstd::prelude::*;

pub mod decimal;
pub mod field;
pub mod ledger;
pub mod post;
pub mod score;
pub mod textual_integer;
pub mod user;

verus! {

/// Addresses of users, posts, comments and fields are plain strings.
pub type Address = String;

/// Relies on uuid::Uuid::new_v4: a fresh random identifier, rendered in its
/// canonical hyphenated form. The result is random, so nothing is stated
/// about it.
#[verifier::external_body]
pub fn generate_unique_address() -> Address {
    uuid::Uuid::new_v4().to_string()
}

/// Relies on uuid::Uuid::new_v4: a fresh random identifier used as a default
/// display name. The result is random, so nothing is stated about it.
#[verifier::external_body]
pub fn generate_unique_name() -> String {
    uuid::Uuid::new_v4().to_string()
}

} // verus!
