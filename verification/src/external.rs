//! The types of other crates that values of this crate carry along.
use vstd::prelude::*;

verus! {

/// `std::io::Error`: what a file operation failed with. Nothing is claimed of
/// it; it is moved from the operation that failed into the error that is
/// returned.
#[verifier::external_type_specification]
#[verifier::external_body]
pub struct ExIoError(std::io::Error);

/// `serde_json::Error`: what turning a value into JSON, or JSON into a value,
/// failed with. Nothing is claimed of it; it is moved along like an I/O error.
#[verifier::external_type_specification]
#[verifier::external_body]
pub struct ExJsonError(serde_json::Error);

} // verus!
